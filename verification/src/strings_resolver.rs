//! The string table of binary saves: string lookup tokens refer to its entries by index.
use vstd::prelude::*;
use vstd::utf8::*;
use vstd::string::StringSliceAdditionalSpecFns;

verus! {

broadcast use vstd::string::group_string_axioms, vstd::utf8::encode_utf8_valid_utf8,
    vstd::utf8::encode_utf8_decode_utf8;

/// `std::str::from_utf8`: the bytes as a string slice when they are valid UTF-8.
///
/// Trusted: its documentation says it returns `Ok` exactly for valid UTF-8, and the slice it
/// returns views the same bytes.
#[verifier::external_body]
pub(crate) fn str_from_utf8(v: &[u8]) -> (res: Option<&str>)
    ensures
        match res {
            Some(s) => valid_utf8(v@) && s.spec_bytes() == v@,
            None => !valid_utf8(v@),
        },
{
    std::str::from_utf8(v).ok()
}

/// Why a string table could not be read.
#[derive(Debug, PartialEq, Eq, Clone, Copy)]
pub enum StringsError {
    /// The 5-byte header is missing.
    Header,
    /// A string runs past the end of the input.
    Eof,
    /// A string is not valid UTF-8.
    Utf8,
}

/// Reading the entries of a string table after its header: each is a 2-byte little-endian
/// length and that many bytes of UTF-8; reading stops when fewer than 2 bytes are left.
pub open spec fn spec_entries(s: Seq<u8>) -> Result<Seq<Seq<u8>>, StringsError>
    decreases s.len(),
{
    if s.len() < 2 {
        Ok(seq![])
    } else {
        let len = s[0] + s[1] * 256;
        if s.len() - 2 < len {
            Err(StringsError::Eof)
        } else {
            let text = s.subrange(2, 2 + len);
            if !valid_utf8(text) {
                Err(StringsError::Utf8)
            } else {
                match spec_entries(s.subrange(2 + len, s.len() as int)) {
                    Ok(rest) => Ok(seq![text] + rest),
                    Err(e) => Err(e),
                }
            }
        }
    }
}

/// Reading a whole string table: a 5-byte header, then the entries.
pub open spec fn spec_string_table(raw: Seq<u8>) -> Result<Seq<Seq<u8>>, StringsError> {
    if raw.len() < 5 {
        Err(StringsError::Header)
    } else {
        spec_entries(raw.subrange(5, raw.len() as int))
    }
}

/// Resolves string lookup indices
/// ([`crate::bin_lexer::BinToken::LookupU16`]/[`crate::common_deserialize::LookupU16`]) to
/// strings.
pub struct StringsResolver {
    strings: Vec<String>,
}

impl View for StringsResolver {
    type V = Seq<Seq<char>>;

    /// The table's strings, in order.
    closed spec fn view(&self) -> Seq<Seq<char>> {
        self.strings@.map_values(|s: String| s@)
    }
}

impl StringsResolver {
    /// Input is the `string_lookup` archive file contents.
    pub fn from_raw(raw: Box<[u8]>) -> (res: Result<Self, StringsError>)
        ensures
            match spec_string_table(raw@) {
                Ok(entries) => res matches Ok(r) && r@.len() == entries.len() && forall|i: int|
                    0 <= i < entries.len() ==> encode_utf8(#[trigger] r@[i]) == entries[i],
                Err(e) => res == Err::<Self, StringsError>(e),
            },
    {
        let bytes: &[u8] = &raw;
        if bytes.len() < 5 {
            return Err(StringsError::Header);
        }
        let mut strings: Vec<String> = Vec::new();
        let mut pos: usize = 5;
        let ghost all = bytes@;
        loop
            invariant
                all == raw@,
                bytes@ == all,
                5 <= pos <= all.len(),
                forall|i: int|
                    0 <= i < strings@.len() ==> valid_utf8(encode_utf8(#[trigger] strings@[i]@)),
                spec_string_table(all) == match spec_entries(all.subrange(pos as int, all.len() as int)) {
                    Ok(rest) => Ok(strings@.map_values(|s: String| encode_utf8(s@)) + rest),
                    Err(e) => Err(e),
                },
            decreases all.len() - pos,
        {
            let ghost s = all.subrange(pos as int, all.len() as int);
            if bytes.len() - pos < 2 {
                proof {
                    assert(strings@.map_values(|s: String| encode_utf8(s@)) + seq![]
                        =~= strings@.map_values(|s: String| encode_utf8(s@)));
                }
                let res = StringsResolver { strings };
                proof {
                    assert forall|i: int| 0 <= i < res@.len() implies encode_utf8(
                        #[trigger] res@[i],
                    ) == strings@.map_values(|s: String| encode_utf8(s@))[i] by {}
                }
                return Ok(res);
            }
            let len = bytes[pos] as usize + (bytes[pos + 1] as usize) * 256;
            proof {
                assert(s[0] == all[pos as int] && s[1] == all[pos + 1]);
            }
            if bytes.len() - pos - 2 < len {
                return Err(StringsError::Eof);
            }
            let chunk = vstd::slice::slice_subrange(bytes, pos + 2, pos + 2 + len);
            proof {
                assert(chunk@ =~= s.subrange(2, 2 + len));
            }
            let text = match str_from_utf8(chunk) {
                Some(t) => t,
                None => {
                    return Err(StringsError::Utf8);
                },
            };
            let ghost old_strings = strings@;
            strings.push(text.to_string());
            proof {
                assert(encode_utf8(strings@.last()@) == chunk@);
                assert(strings@.map_values(|s: String| encode_utf8(s@)) =~= old_strings.map_values(
                    |s: String| encode_utf8(s@),
                ).push(chunk@));
                assert(s.subrange(2 + len, s.len() as int) =~= all.subrange(
                    pos + 2 + len,
                    all.len() as int,
                ));
                match spec_entries(s.subrange(2 + len, s.len() as int)) {
                    Ok(rest) => {
                        assert(old_strings.map_values(|s: String| encode_utf8(s@)) + (seq![chunk@]
                            + rest) =~= strings@.map_values(|s: String| encode_utf8(s@)) + rest);
                    },
                    Err(_) => {},
                }
            }
            pos = pos + 2 + len;
        }
    }

    /// The string with index `id`, if the table has that many.
    pub fn get<'a>(&'a self, id: u16) -> (res: Option<&'a str>)
        ensures
            match res {
                Some(s) => (id as int) < self@.len() && s@ == self@[id as int],
                None => (id as int) >= self@.len(),
            },
    {
        let i = id as usize;
        if i < self.strings.len() {
            Some(self.strings[i].as_str())
        } else {
            None
        }
    }

    pub fn len(&self) -> (res: usize)
        ensures
            res == self@.len(),
    {
        self.strings.len()
    }

    pub fn is_empty(&self) -> (res: bool)
        ensures
            res == (self@.len() == 0),
    {
        self.strings.len() == 0
    }

    /// Each string with its index (the index as the `u16` that `as` gives).
    pub fn iter<'a>(&'a self) -> (res: Vec<(u16, &'a str)>)
        ensures
            res@.len() == self@.len(),
            forall|i: int|
                0 <= i < res@.len() ==> (#[trigger] res@[i]).0 == (i as u16) && res@[i].1@
                    == self@[i],
    {
        let mut out: Vec<(u16, &'a str)> = Vec::new();
        let mut i: usize = 0;
        while i < self.strings.len()
            invariant
                0 <= i <= self.strings@.len(),
                out@.len() == i,
                forall|j: int|
                    0 <= j < i ==> (#[trigger] out@[j]).0 == (j as u16) && out@[j].1@
                        == self@[j],
            decreases self.strings@.len() - i,
        {
            out.push((i as u16, self.strings[i].as_str()));
            i = i + 1;
        }
        out
    }
}

impl Default for StringsResolver {
    /// Creates a new resolver with an empty string lookup.
    fn default() -> (res: Self)
        ensures
            res@.len() == 0,
    {
        StringsResolver { strings: Vec::new() }
    }
}

} // verus!
