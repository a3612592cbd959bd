use cartographer::bin_deserialize::{BinDeserialize, BinDeserializer, BinError};
use cartographer::bin_lexer::BinToken;
use cartographer::common_deserialize::SkipValue;
use cartographer::err_context::Context;
use cartographer::strings_resolver::StringsResolver;
use cartographer::text_deserialize::{TextDeserialize, TextDeserializer, TextError, TextState};
use cartographer::text_lexer::TextToken;

/// A struct as the library's deserializers read it: the code below is what deriving the
/// readers for it writes out.
struct Thingy {
    asdf: u32,
    true_false_maybe: Option<bool>,
}

impl<'de> BinDeserialize<'de> for Thingy {
    // The description of a read is for the verifier only; this impl is not verified.
    fn took(_stream: BinDeserializer<'de>, _rest: BinDeserializer<'de>, _value: Self) -> bool {
        true
    }

    fn take(mut stream: BinDeserializer<'de>) -> Result<(Self, BinDeserializer<'de>), BinError> {
        stream.parse_token(BinToken::ID_OPEN_BRACKET).map_err(|err| {
            err.context("Missing open bracket at start of Thingy struct")
        })?;
        let mut asdf: Option<u32> = None;
        let mut true_false_maybe: Option<bool> = None;
        loop {
            match stream.peek_token() {
                None => {
                    return Err(BinError::EOF.context(
                        "When we were expecting the Thingy object to be terminated by '}'",
                    ));
                }
                Some(BinToken::ID_EQUAL) => {
                    return Err(BinError::UnexpectedToken(BinToken::ID_EQUAL)
                        .context("When a new KV or value was expected in Thingy"));
                }
                Some(BinToken::ID_CLOSE_BRACKET) => {
                    stream.eat_token();
                    break;
                }
                Some(BinToken::ID_STRING_QUOTED | BinToken::ID_STRING_UNQUOTED) => {
                    let key: &'de str = stream
                        .parse()
                        .map_err(|err: BinError| err.context("While parsing string key in Thingy"))?;
                    let Some(BinToken::ID_EQUAL) = stream.peek_token() else {
                        continue;
                    };
                    stream.eat_token();
                    match key {
                        "asdf" => {
                            let (value, rest) = <u32>::take(stream)
                                .map_err(|err| err.context("While parsing value for asdf in Thingy"))?;
                            stream = rest;
                            asdf = Some(value);
                        }
                        "true_false_maybe" => {
                            let (value, rest) = <bool>::take(stream).map_err(|err| {
                                err.context("While parsing value for true_false_maybe in Thingy")
                            })?;
                            stream = rest;
                            true_false_maybe = Some(value);
                        }
                        _ => {
                            let SkipValue = stream.parse().map_err(|err: BinError| {
                                err.context("While skipping value for uncaptured key in Thingy")
                            })?;
                        }
                    }
                }
                Some(_) => {
                    let SkipValue = stream
                        .parse()
                        .map_err(|err: BinError| err.context("While skipping non-string key in Thingy"))?;
                    if let Some(BinToken::ID_EQUAL) = stream.peek_token() {
                        stream.eat_token();
                        let SkipValue = stream.parse().map_err(|err: BinError| {
                            err.context("While skipping value for non-string key in Thingy")
                        })?;
                    }
                }
            }
        }
        let asdf = asdf.ok_or(BinError::MissingExpectedField("asdf".to_string()))?;
        Ok((Thingy { asdf, true_false_maybe }, stream))
    }
}

impl<'de> TextDeserialize<'de> for Thingy {
    // The description of a read is for the verifier only; this impl is not verified.
    fn took(_stream: TextState, _rest: TextState, _value: Self) -> bool {
        true
    }

    fn take_text(
        mut stream: TextDeserializer<'de>,
    ) -> Result<(Self, TextDeserializer<'de>), TextError> {
        stream.parse_token(TextToken::OpenBracket)?;
        let mut asdf: Option<u32> = None;
        let mut true_false_maybe: Option<bool> = None;
        loop {
            match stream.peek_token() {
                None => return Err(TextError::EOF),
                Some(TextToken::Equal) => return Err(TextError::UnexpectedToken),
                Some(TextToken::CloseBracket) => {
                    stream.eat_token();
                    break;
                }
                Some(TextToken::StringQuoted(key) | TextToken::StringUnquoted(key))
                    if key == "asdf" =>
                {
                    stream.eat_token();
                    stream
                        .parse_token(TextToken::Equal)
                        .with_context(|| "While parsing '=' for asdf".to_string())?;
                    let value = stream
                        .parse::<u32>()
                        .with_context(|| "While parsing value for asdf".to_string())?;
                    asdf = Some(value);
                }
                Some(TextToken::StringQuoted(key) | TextToken::StringUnquoted(key))
                    if key == "true_false_maybe" =>
                {
                    stream.eat_token();
                    stream
                        .parse_token(TextToken::Equal)
                        .with_context(|| "While parsing '=' for true_false_maybe".to_string())?;
                    let value = stream
                        .parse::<bool>()
                        .with_context(|| "While parsing value for true_false_maybe".to_string())?;
                    true_false_maybe = Some(value);
                }
                Some(_) => {
                    let _ = stream.parse::<SkipValue>()?;
                    if let Some(TextToken::Equal) = stream.peek_token() {
                        stream.eat_token();
                        let _ = stream.parse::<SkipValue>()?;
                    }
                }
            }
        }
        let asdf = asdf.ok_or(TextError::MissingExpectedField)?;
        Ok((Thingy { asdf, true_false_maybe }, stream))
    }
}

#[test]
fn thingy_text() {
    let input1 = b"\x03\x00\
    \x17\x00\x04\x00asdf\x01\x00\x14\x00\x37\x13\x00\x00\
    \x04\x00";
    let (thingy, _rest) =
        Thingy::take(BinDeserializer::from_bytes(input1, &StringsResolver::default())).unwrap();
    assert_eq!(thingy.asdf, 0x1337);
    assert_eq!(thingy.true_false_maybe, None);

    let input2 = b"\x03\x00\
    \x17\x00\x04\x00asdf\x01\x00\x14\x00\x37\x13\x00\x00\
    \x17\x00\x10\x00true_false_maybe\x01\x00\x0e\x00\x01\
    \x04\x00";
    let (thingy, _rest) =
        Thingy::take(BinDeserializer::from_bytes(input2, &StringsResolver::default())).unwrap();
    assert_eq!(thingy.asdf, 0x1337);
    assert_eq!(thingy.true_false_maybe, Some(true));

    let input3 = format!("{{ asdf = {} }}", 0x1337);
    let (thingy, _rest) = Thingy::take_text(TextDeserializer::from_str(&input3)).unwrap();
    assert_eq!(thingy.asdf, 0x1337);
    assert_eq!(thingy.true_false_maybe, None);

    let input4 = format!("{{asdf = {} true_false_maybe = yes}}", 0x1337);
    let (thingy, _rest) = Thingy::take_text(TextDeserializer::from_str(&input4)).unwrap();
    assert_eq!(thingy.asdf, 0x1337);
    assert_eq!(thingy.true_false_maybe, Some(true));
}

/// The struct of `thingy_bin`, whose fields are found by their binary tokens (`asdf` is
/// `0x0101`, `true_false_maybe` is `0x1234`): the code below is what deriving the reader for it
/// writes out.
struct TokenThingy {
    asdf: u32,
    true_false_maybe: Option<bool>,
}

impl<'de> BinDeserialize<'de> for TokenThingy {
    // The description of a read is for the verifier only; this impl is not verified.
    fn took(_stream: BinDeserializer<'de>, _rest: BinDeserializer<'de>, _value: Self) -> bool {
        true
    }

    fn take(mut stream: BinDeserializer<'de>) -> Result<(Self, BinDeserializer<'de>), BinError> {
        stream
            .parse_token(BinToken::ID_OPEN_BRACKET)
            .map_err(|err| err.context("Missing open bracket at start of Thingy struct"))?;
        let mut asdf: Option<u32> = None;
        let mut true_false_maybe: Option<bool> = None;
        loop {
            match stream.peek_token() {
                None => {
                    return Err(BinError::EOF.context(
                        "When we were expecting the Thingy object to be terminated by '}'",
                    ));
                }
                Some(BinToken::ID_EQUAL) => {
                    return Err(BinError::UnexpectedToken(BinToken::ID_EQUAL)
                        .context("When a new KV or value was expected in Thingy"));
                }
                Some(BinToken::ID_CLOSE_BRACKET) => {
                    stream.eat_token();
                    break;
                }
                Some(BinToken::ID_STRING_QUOTED | BinToken::ID_STRING_UNQUOTED) => {
                    let _key: &'de str = stream
                        .parse()
                        .map_err(|err: BinError| err.context("While parsing string key in Thingy"))?;
                    let Some(BinToken::ID_EQUAL) = stream.peek_token() else {
                        continue;
                    };
                    stream.eat_token();
                    let SkipValue = stream.parse().map_err(|err: BinError| {
                        err.context("While skipping value for uncaptured key in Thingy")
                    })?;
                }
                Some(0x0101) => {
                    stream.eat_token();
                    stream
                        .parse_token(BinToken::ID_EQUAL)
                        .map_err(|err| err.context("Missing equal sign for asdf in Thingy"))?;
                    let (value, rest) = <u32>::take(stream)
                        .map_err(|err| err.context("While parsing value for asdf in Thingy"))?;
                    stream = rest;
                    asdf = Some(value);
                }
                Some(0x1234) => {
                    stream.eat_token();
                    stream.parse_token(BinToken::ID_EQUAL).map_err(|err| {
                        err.context("Missing equal sign for true_false_maybe in Thingy")
                    })?;
                    let (value, rest) = <bool>::take(stream).map_err(|err| {
                        err.context("While parsing value for true_false_maybe in Thingy")
                    })?;
                    stream = rest;
                    true_false_maybe = Some(value);
                }
                Some(_) => {
                    let SkipValue = stream
                        .parse()
                        .map_err(|err: BinError| err.context("While skipping non-string key in Thingy"))?;
                    if let Some(BinToken::ID_EQUAL) = stream.peek_token() {
                        stream.eat_token();
                        let SkipValue = stream.parse().map_err(|err: BinError| {
                            err.context("While skipping value for non-string key in Thingy")
                        })?;
                    }
                }
            }
        }
        let asdf = asdf.ok_or(BinError::MissingExpectedField("asdf".to_string()))?;
        Ok((TokenThingy { asdf, true_false_maybe }, stream))
    }
}

#[test]
fn thingy_bin() {
    // These bytes hold a string key of four bytes (`01 01 01 00`) and then a lone number, not
    // the `asdf` token: the field is missing.
    let input = b"\x03\x00\
    \x17\x00\x04\x00\x01\x01\x01\x00\x14\x00\x37\x13\x00\x00\
    \x04\x00";
    let strings = StringsResolver::default();
    let res = TokenThingy::take(BinDeserializer::from_bytes(input, &strings));
    assert!(matches!(res, Err(BinError::MissingExpectedField(ref f)) if f == "asdf"));

    let input2 = b"\x03\x00\
    \x01\x01\x01\x00\x14\x00\x37\x13\x00\x00\
    \x34\x12\x01\x00\x0e\x00\x01\
    \x04\x00";
    let (thingy, _rest) =
        TokenThingy::take(BinDeserializer::from_bytes(input2, &StringsResolver::default())).unwrap();
    assert_eq!(thingy.asdf, 0x1337);
    assert_eq!(thingy.true_false_maybe, Some(true));
}
