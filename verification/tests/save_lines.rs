use cartographer::bad_parser::{line_structure, BracketError, LineKind};

#[test]
fn lines_open_and_close_brackets() {
    let mut brackets: Vec<&str> = Vec::new();
    assert_eq!(line_structure(&mut brackets, "\tcountries={"), Ok(LineKind::Opened));
    assert_eq!(brackets, vec!["countries"]);
    assert_eq!(line_structure(&mut brackets, "  SWE= {{"), Ok(LineKind::Opened));
    assert_eq!(brackets, vec!["countries", "{", "{"]);
    assert_eq!(line_structure(&mut brackets, "x={ 1 2 }"), Ok(LineKind::Both));
    assert_eq!(brackets.len(), 3);
    assert_eq!(line_structure(&mut brackets, "}"), Ok(LineKind::Closed));
    assert_eq!(line_structure(&mut brackets, "}"), Ok(LineKind::Closed));
    assert_eq!(line_structure(&mut brackets, "\t}"), Ok(LineKind::Closed));
    assert!(brackets.is_empty());
    assert_eq!(line_structure(&mut brackets, "}"), Err(BracketError::Unbalanced));
    assert!(brackets.is_empty());
    // A name loses the `{`s and then the `=`s at its end, and nothing else.
    assert_eq!(line_structure(&mut brackets, "b=={"), Ok(LineKind::Opened));
    assert_eq!(line_structure(&mut brackets, "a == {"), Ok(LineKind::Opened));
    assert_eq!(brackets, vec!["b", "a == "]);
}

#[test]
fn lines_split_into_key_and_value() {
    let mut brackets: Vec<&str> = vec!["countries"];
    assert_eq!(line_structure(&mut brackets, "\t\ttreasury=12.5 "), Ok(LineKind::Entry(Some("treasury"), "12.5")));
    assert_eq!(line_structure(&mut brackets, "  \"SWE\" "), Ok(LineKind::Entry(None, "\"SWE\"")));
    // A quote before the `=` keeps the line whole.
    assert_eq!(line_structure(&mut brackets, " \"a=b\" "), Ok(LineKind::Entry(None, "\"a=b\"")));
    assert_eq!(line_structure(&mut brackets, "name=\"x=y\""), Ok(LineKind::Entry(Some("name"), "\"x=y\"")));
    assert_eq!(line_structure(&mut brackets, "k = v = w"), Ok(LineKind::Entry(Some("k"), "v = w")));
    assert_eq!(line_structure(&mut brackets, ""), Ok(LineKind::Entry(None, "")));
    assert_eq!(brackets, vec!["countries"]);
}
