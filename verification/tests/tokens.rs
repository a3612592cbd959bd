use cartographer::bin_deserialize::{BinDeserialize, BinDeserializer};
use cartographer::bin_lexer::{
    BinLexer, BinToken, BinTokenLookup, BinTokenReverseLookup, TokenRegistryArray,
    TokenRegistryError,
};
use cartographer::common_deserialize::{LookupU16, LookupU24, LookupU8};
use cartographer::modern_header::{HeaderError, ModernHeader, SaveFormat};
use cartographer::strings_resolver::{StringsError, StringsResolver};
use cartographer::text_lexer::{TextLexer, TextToken};

fn lex_all(text: &str) -> Vec<TextToken<'_>> {
    let mut lexer = TextLexer::new(text);
    let mut out = Vec::new();
    while let Some(t) = lexer.next() {
        out.push(t);
    }
    out
}

#[test]
fn text_lexer_reads_every_kind_of_token() {
    let text = "a = { 1 -2 1.5 yes no \"q\\\"x\" @var @[1+2] } # note\n  b=c ";
    assert_eq!(
        lex_all(text),
        vec![
            TextToken::StringUnquoted("a"),
            TextToken::Equal,
            TextToken::OpenBracket,
            TextToken::UInt(1),
            TextToken::Int(-2),
            TextToken::Float("1.5"),
            TextToken::Bool(true),
            TextToken::Bool(false),
            TextToken::StringQuoted("q\\\"x"),
            TextToken::Variable("var"),
            TextToken::Expr("1+2"),
            TextToken::CloseBracket,
            TextToken::StringUnquoted("b"),
            TextToken::Equal,
            TextToken::StringUnquoted("c"),
        ]
    );
}

#[test]
fn text_lexer_edge_cases() {
    // A last word with nothing after it is read whole.
    assert_eq!(lex_all("abc"), vec![TextToken::StringUnquoted("abc")]);
    assert_eq!(lex_all("x = yes"), vec![
        TextToken::StringUnquoted("x"),
        TextToken::Equal,
        TextToken::Bool(true),
    ]);
    // Dates and other texts with several dots are plain words.
    assert_eq!(lex_all("1444.11.11 "), vec![TextToken::StringUnquoted("1444.11.11")]);
    assert_eq!(lex_all("-3- "), vec![TextToken::StringUnquoted("-3-")]);
    // An unclosed string, an unclosed expression and an empty variable end the tokens.
    assert_eq!(lex_all("x \"open"), vec![TextToken::StringUnquoted("x")]);
    assert_eq!(lex_all("@[1+2"), vec![]);
    assert_eq!(lex_all("@ "), vec![]);
    // A number too large for its type ends the tokens too.
    assert_eq!(lex_all("99999999999999999999 "), vec![]);
    // Comments up to the end of the text leave nothing.
    assert_eq!(lex_all("# only a comment"), vec![]);
    assert_eq!(lex_all("   "), vec![]);
}

#[test]
fn text_tokens_kinds() {
    assert_eq!(TextToken::Equal.token_type_repr(), "=");
    assert_eq!(TextToken::UInt(3).token_type_repr(), "uint");
    assert_eq!(TextToken::Float("1.5").token_type_repr(), "float");
    assert_eq!(TextToken::Expr("x").token_type_repr(), "expr");
    assert!(TextToken::Bool(true).is_base_scalar());
    assert!(TextToken::StringQuoted("a").is_base_scalar());
    assert!(!TextToken::OpenBracket.is_base_scalar());
    assert!(!TextToken::Variable("v").is_base_scalar());
    assert!(TextToken::Int(-1).same(&TextToken::Int(-1)));
    assert!(!TextToken::Int(1).same(&TextToken::UInt(1)));
    assert!(!TextToken::StringUnquoted("a").same(&TextToken::StringUnquoted("b")));
}

#[test]
fn text_lexer_layout_indents_inside_brackets() {
    let layout = TextLexer::new("a={b={c}} } d ").print_layout();
    assert_eq!(
        layout,
        vec![
            (0, TextToken::StringUnquoted("a")),
            (0, TextToken::Equal),
            (0, TextToken::OpenBracket),
            (4, TextToken::StringUnquoted("b")),
            (4, TextToken::Equal),
            (4, TextToken::OpenBracket),
            (8, TextToken::StringUnquoted("c")),
            (4, TextToken::CloseBracket),
            (0, TextToken::CloseBracket),
            (0, TextToken::CloseBracket),
            (0, TextToken::StringUnquoted("d")),
        ]
    );
}

fn no_strings() -> StringsResolver {
    StringsResolver::from_raw(vec![0u8; 5].into_boxed_slice()).unwrap()
}

#[test]
fn bin_lexer_reads_tokens_with_payloads() {
    let strings = no_strings();
    let bytes: Vec<u8> = vec![
        0x01, 0x00, // =
        0x03, 0x00, // {
        0x0c, 0x00, 0xff, 0xff, 0xff, 0xff, // i32 -1
        0x14, 0x00, 0x2a, 0x00, 0x00, 0x00, // u32 42
        0x0e, 0x00, 0x01, // bool true
        0x0f, 0x00, 0x03, 0x00, b'a', b'b', b'c', // "abc"
        0x17, 0x00, 0x01, 0x00, b'z', // z
        0x0d, 0x00, 0xe8, 0x03, 0x00, 0x00, // f32 1000 thousandths
        0x48, 0x0d, 0x05, // fixed2_u8 5
        0x4f, 0x0d, 0x05, // fixed2_u8_neg 5
        0x47, 0x0d, // zero
        0x40, 0x0d, 0x07, // lookup_u8 7
        0x3e, 0x0d, 0x02, 0x01, // lookup_u16 0x0102
        0x41, 0x0d, 0x03, 0x02, 0x01, // lookup_u24 0x010203
        0x34, 0x12, // some other token
        0x04, 0x00, // }
        0x0c, 0x00, 0x01, // an i32 cut short
    ];
    let mut lexer = BinLexer::new(&bytes, &strings);
    let mut out = Vec::new();
    while let Some(t) = lexer.next() {
        out.push(t);
    }
    assert_eq!(
        out,
        vec![
            BinToken::Equal,
            BinToken::OpenBracket,
            BinToken::I32(-1),
            BinToken::U32(42),
            BinToken::Bool(true),
            BinToken::StringQuoted(b"abc"),
            BinToken::StringUnquoted(b"z"),
            BinToken::F32(1000),
            BinToken::F64(5000),
            BinToken::F64(-5000),
            BinToken::F64(0),
            BinToken::LookupU8(LookupU8(7)),
            BinToken::LookupU16(LookupU16(0x0102)),
            BinToken::LookupU24(LookupU24(0x010203)),
            BinToken::Other(0x1234),
            BinToken::CloseBracket,
        ]
    );
    assert_eq!(lexer.current_index(), bytes.len() - 3);
    assert_eq!(lexer.next(), None);
}

#[test]
fn bin_token_names() {
    assert_eq!(BinToken::base_token_repr(0x0d47), Some("zero"));
    assert_eq!(BinToken::base_token_repr(BinToken::ID_LOOKUP_U16_ALT), Some("lookup_u16_alt"));
    assert_eq!(BinToken::base_token_repr(0x0005), None);
    assert!(BinToken::is_base_token_id(BinToken::ID_I64));
    assert!(!BinToken::is_base_token_id(0x1234));
}

#[test]
fn token_registry_reads_lines() {
    let reg = TokenRegistryArray::new("1;foo\n700;bar\r\n1;baz\n").unwrap();
    assert_eq!(reg.get_text(1), Some("baz".to_string()));
    assert_eq!(reg.get_text(700), Some("bar".to_string()));
    assert_eq!(reg.get_text(2), None);
    assert_eq!(reg.get_token("bar"), Some(700));
    assert_eq!(reg.get_token("foo"), None);
    let table = reg.unwrap();
    assert_eq!(table.len(), 0x10000);
    assert_eq!(table[700], Some("bar".to_string()));
    assert_eq!(
        TokenRegistryArray::new("1;a\nno separator").err(),
        Some(TokenRegistryError::InvalidFormat)
    );
    assert_eq!(TokenRegistryArray::new("65536;a").err(), Some(TokenRegistryError::InvalidToken));
    assert_eq!(TokenRegistryArray::new("x;a").err(), Some(TokenRegistryError::InvalidToken));
}

#[test]
fn strings_resolver_reads_the_table() {
    let raw: Vec<u8> = vec![9, 9, 9, 9, 9, 3, 0, b'a', b'b', b'c', 2, 0, 0xc3, 0xa9, 1];
    let strings = StringsResolver::from_raw(raw.into_boxed_slice()).unwrap();
    assert_eq!(strings.len(), 2);
    assert!(!strings.is_empty());
    assert_eq!(strings.get(0), Some("abc"));
    assert_eq!(strings.get(1), Some("é"));
    assert_eq!(strings.get(2), None);
    assert_eq!(strings.iter(), vec![(0, "abc"), (1, "é")]);
    assert!(no_strings().is_empty());
}

#[test]
fn strings_resolver_errors() {
    assert_eq!(
        StringsResolver::from_raw(vec![0u8; 4].into_boxed_slice()).err(),
        Some(StringsError::Header)
    );
    assert_eq!(
        StringsResolver::from_raw(vec![0, 0, 0, 0, 0, 5, 0, b'a'].into_boxed_slice()).err(),
        Some(StringsError::Eof)
    );
    assert_eq!(
        StringsResolver::from_raw(vec![0, 0, 0, 0, 0, 1, 0, 0xff].into_boxed_slice()).err(),
        Some(StringsError::Utf8)
    );
}

fn header(version: u8, format: u8, meta_len: &[u8], tail: &[u8]) -> Vec<u8> {
    let mut b = b"SAV0".to_vec();
    b.push(version);
    b.push(b'0');
    b.push(format);
    b.extend_from_slice(b"abcdefgh");
    b.extend_from_slice(meta_len);
    b.extend_from_slice(tail);
    b
}

#[test]
fn modern_header_splits_meta_and_gamestate() {
    let b = header(b'1', b'3', b"00000004", b"\nmetaGAME");
    let h = ModernHeader::take(&b).unwrap();
    assert_eq!(h.save_format_version, 1);
    assert_eq!(h.save_format, SaveFormat::UnifiedCompressedBinary);
    assert_eq!(h.all, b"metaGAME");
    assert_eq!(h.meta, b"meta");
    assert_eq!(h.gamestate, b"GAME");

    let b = header(b'2', b'0', b"0000000A", b"12345678\r\n0123456789rest");
    let h = ModernHeader::take(&b).unwrap();
    assert_eq!(h.save_format_version, 2);
    assert_eq!(h.save_format, SaveFormat::UncompressedText);
    assert_eq!(h.meta, b"0123456789");
    assert_eq!(h.gamestate, b"rest");
}

#[test]
fn modern_header_errors() {
    let take = |b: &[u8]| ModernHeader::take(b).err();
    assert_eq!(take(b"SAV"), Some(HeaderError::MissingPrefix));
    assert_eq!(take(b"XAV01"), Some(HeaderError::MissingPrefix));
    assert_eq!(take(b"SAV0"), Some(HeaderError::VersionEof));
    assert_eq!(take(b"SAV0x"), Some(HeaderError::InvalidVersion));
    assert_eq!(take(b"SAV01"), Some(HeaderError::HeaderEof));
    assert_eq!(take(b"SAV010"), Some(HeaderError::FormatEof));
    assert_eq!(take(b"SAV0106"), Some(HeaderError::InvalidFormat(b'6')));
    assert_eq!(take(b"SAV0101abc"), Some(HeaderError::HeaderEof));
    assert_eq!(take(&header(b'1', b'1', b"0000", b"")), Some(HeaderError::MetaLengthEof));
    assert_eq!(
        take(&header(b'1', b'1', &[0xff, b'0', b'0', b'0', b'0', b'0', b'0', b'0'], b"\n")),
        Some(HeaderError::MetaLengthNotText)
    );
    assert_eq!(take(&header(b'1', b'1', b"0000000g", b"\n")), Some(HeaderError::MetaLengthNotHex));
    assert_eq!(take(&header(b'1', b'1', b"00000000", b"x\n")), Some(HeaderError::MissingNewline));
    assert_eq!(take(&header(b'2', b'1', b"00000000", b"1234\n")), Some(HeaderError::HeaderEof));
    assert_eq!(take(&header(b'1', b'1', b"00000010", b"\nshort")), Some(HeaderError::MetaEof));
    assert_eq!(HeaderError::MissingPrefix.message(), "Missing SAV0 prefix");
    assert_eq!(HeaderError::InvalidFormat(b'9').message(), "Invalid save format id");
}

#[test]
fn save_format_ids() {
    for id in 0u8..6 {
        assert_eq!(SaveFormat::from_id(id).unwrap().id(), id);
    }
    assert_eq!(SaveFormat::from_id(5), Some(SaveFormat::SplitCompressedBinary));
    assert_eq!(SaveFormat::from_id(6), None);
}

#[test]
fn bin_token_fixed_two_places() {
    let strings = no_strings();
    // 100 with two decimal places is 1.0, kept as 100000 hundred-thousandths.
    let bytes = [0x48u8, 0x0d, 0x64, 0xff];
    let (t, rest) = BinToken::take(BinDeserializer::from_bytes(&bytes, &strings)).unwrap();
    assert_eq!(t, BinToken::F64(100_000));
    assert_eq!(rest.current_index(), 3);
    let bytes = [0x50u8, 0x0d, 0x01, 0x01];
    let (t, _) = BinToken::take(BinDeserializer::from_bytes(&bytes, &strings)).unwrap();
    assert_eq!(t, BinToken::F64(-257_000));
    // Five decimal places are kept as they are.
    let bytes = [0x4bu8, 0x0d, 0x01, 0x00, 0x00, 0x00];
    let (t, _) = BinToken::take(BinDeserializer::from_bytes(&bytes, &strings)).unwrap();
    assert_eq!(t, BinToken::F64(1));
}

#[test]
fn bin_token_types() {
    assert_eq!(BinToken::Equal.token_type_repr(), Ok("="));
    assert_eq!(BinToken::F64(3).token_type_repr(), Ok("f64"));
    assert_eq!(BinToken::LookupU24(LookupU24(1)).token_type_repr(), Ok("lookup_u24"));
    assert_eq!(BinToken::Other(0x1234).token_type_repr(), Err(0x1234));
    assert!(BinToken::U32(1).is_base_scalar());
    assert!(BinToken::StringQuoted(b"a").is_base_scalar());
    assert!(BinToken::LookupU16(LookupU16(2)).is_base_scalar());
    assert!(!BinToken::LookupU24(LookupU24(2)).is_base_scalar());
    assert!(!BinToken::OpenBracket.is_base_scalar());
    assert!(!BinToken::Other(7).is_base_scalar());
}

#[test]
fn bin_lexer_lays_out_tokens() {
    let strings = no_strings();
    // a = { 5 } } then a token cut short
    let bytes = [
        0x17u8, 0x00, 0x01, 0x00, b'a', // a
        0x01, 0x00, // =
        0x03, 0x00, // {
        0x14, 0x00, 0x05, 0x00, 0x00, 0x00, // 5u32
        0x04, 0x00, // }
        0x04, 0x00, // }
        0x0c, 0x00, 0x01, // cut short
    ];
    let lexer = BinLexer::new(&bytes, &strings);
    assert_eq!(lexer.remaining_len(), bytes.len());
    let layout = lexer.pretty_layout();
    let shape: Vec<(usize, usize)> = layout.iter().map(|(o, d, _)| (*o, *d)).collect();
    assert_eq!(shape, vec![(0, 0), (5, 0), (7, 0), (9, 4), (15, 0), (17, 0)]);
    assert_eq!(layout[0].2, BinToken::StringUnquoted(b"a"));
    assert_eq!(layout[3].2, BinToken::U32(5));
}
