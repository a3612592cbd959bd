use cartographer::eu4_raw_parser::{RawEU4Object, RawEU4ObjectItem, RawEU4Scalar, RawEU4Value};
use cartographer::raw_parser::{RawPDXObject, RawPDXObjectItem, RawPDXScalar, RawPDXValue};

#[test]
fn raw_parser_test_scalar_value_strings() {
    assert_eq!(
        RawPDXValue::take("asdf"),
        Some(("", RawPDXValue::Scalar(RawPDXScalar("asdf")))),
    );
    assert_eq!(
        RawPDXValue::take("asdf "),
        Some((" ", RawPDXValue::Scalar(RawPDXScalar("asdf")))),
    );
    assert_eq!(RawPDXValue::take(" asdf"), None);
    assert_eq!(
        RawPDXValue::take(r#""a{}=+s{d f" "#),
        Some((" ", RawPDXValue::Scalar(RawPDXScalar(r#""a{}=+s{d f""#)))),
    );

    assert_eq!(
        RawEU4Value::take("asdf"),
        Some(("", RawEU4Value::Scalar(RawEU4Scalar("asdf")))),
    );
    assert_eq!(
        RawEU4Value::take("asdf "),
        Some((" ", RawEU4Value::Scalar(RawEU4Scalar("asdf")))),
    );
    assert_eq!(RawEU4Value::take(" asdf"), None);
    assert_eq!(
        RawEU4Value::take(r#""a{}=+s{d f" "#),
        Some((" ", RawEU4Value::Scalar(RawEU4Scalar(r#""a{}=+s{d f""#)))),
    );
}

#[test]
fn raw_parser_test_scalar_value_non_strings() {
    assert_eq!(
        RawPDXValue::take("123 456"),
        Some((" 456", RawPDXValue::Scalar(RawPDXScalar("123")))),
    );
    assert_eq!(
        RawPDXValue::take("123 {}"),
        Some((" {}", RawPDXValue::Scalar(RawPDXScalar("123")))),
    );
    assert_eq!(RawPDXValue::take(" 45.4"), None);
    assert_eq!(
        RawPDXValue::take("45.1.4- "),
        Some((" ", RawPDXValue::Scalar(RawPDXScalar("45.1.4-")))),
    );

    assert_eq!(
        RawEU4Value::take("123 456"),
        Some((" 456", RawEU4Value::Scalar(RawEU4Scalar("123")))),
    );
    assert_eq!(
        RawEU4Value::take("123 {}"),
        Some((" {}", RawEU4Value::Scalar(RawEU4Scalar("123")))),
    );
    assert_eq!(RawEU4Value::take(" 45.4"), None);
    assert_eq!(
        RawEU4Value::take("45.1.4- "),
        Some((" ", RawEU4Value::Scalar(RawEU4Scalar("45.1.4-")))),
    );
}

#[test]
fn raw_parser_test_object_inner_scalar_values() {
    let make_abc_vec = || {
        RawPDXObject(vec![
            RawPDXObjectItem::Value(RawPDXValue::Scalar(RawPDXScalar("a"))),
            RawPDXObjectItem::Value(RawPDXValue::Scalar(RawPDXScalar("b"))),
            RawPDXObjectItem::Value(RawPDXValue::Scalar(RawPDXScalar("c"))),
        ])
    };
    assert_eq!(
        RawPDXObject::parse_object_inner("a b c"),
        Some(("", make_abc_vec())),
    );
    assert_eq!(
        RawPDXObject::parse_object_inner("a b c}"),
        Some(("", make_abc_vec())),
    );
    assert_eq!(
        RawPDXObject::parse_object_inner(" a b c } "),
        Some((" ", make_abc_vec())),
    );

    let make_abc_vec_eu4 = || {
        RawEU4Object(vec![
            RawEU4ObjectItem::Value(RawEU4Value::Scalar(RawEU4Scalar("a"))),
            RawEU4ObjectItem::Value(RawEU4Value::Scalar(RawEU4Scalar("b"))),
            RawEU4ObjectItem::Value(RawEU4Value::Scalar(RawEU4Scalar("c"))),
        ])
    };
    assert_eq!(
        RawEU4Object::parse_object_inner("a b c"),
        Some(("", make_abc_vec_eu4())),
    );
    assert_eq!(
        RawEU4Object::parse_object_inner("a b c}"),
        Some(("", make_abc_vec_eu4())),
    );
    assert_eq!(
        RawEU4Object::parse_object_inner(" a b c } "),
        Some((" ", make_abc_vec_eu4())),
    );
}

#[test]
fn raw_parser_test_object_inner_scalar_mixed() {
    let make_items_vec = || {
        RawPDXObject(vec![
            RawPDXObjectItem::KV(RawPDXScalar("a"), RawPDXValue::Scalar(RawPDXScalar("a2"))),
            RawPDXObjectItem::Value(RawPDXValue::Scalar(RawPDXScalar("b"))),
            RawPDXObjectItem::KV(
                RawPDXScalar("c"),
                RawPDXValue::Scalar(RawPDXScalar(r#""c= {} b""#)),
            ),
        ])
    };
    assert_eq!(
        RawPDXObject::parse_object_inner(r#"a = a2 b c="c= {} b""#),
        Some(("", make_items_vec())),
    );
    assert_eq!(
        RawPDXObject::parse_object_inner(r#"a= a2 b c ="c= {} b" }"#),
        Some(("", make_items_vec())),
    );

    let make_items_vec_eu4 = || {
        RawEU4Object(vec![
            RawEU4ObjectItem::KV(RawEU4Scalar("a"), RawEU4Value::Scalar(RawEU4Scalar("a2"))),
            RawEU4ObjectItem::Value(RawEU4Value::Scalar(RawEU4Scalar("b"))),
            RawEU4ObjectItem::KV(
                RawEU4Scalar("c"),
                RawEU4Value::Scalar(RawEU4Scalar(r#""c= {} b""#)),
            ),
        ])
    };
    assert_eq!(
        RawEU4Object::parse_object_inner(r#"a = a2 b c="c= {} b""#),
        Some(("", make_items_vec_eu4())),
    );
    assert_eq!(
        RawEU4Object::parse_object_inner(r#"a= a2 b c ="c= {} b" }"#),
        Some(("", make_items_vec_eu4())),
    );
}

#[test]
fn raw_parser_test_object_inner_objects() {
    assert_eq!(
        RawPDXObject::parse_object_inner("a {b c=d}"),
        Some((
            "",
            RawPDXObject(vec![
                RawPDXObjectItem::Value(RawPDXValue::Scalar(RawPDXScalar("a"))),
                RawPDXObjectItem::Value(RawPDXValue::Object(RawPDXObject(vec![
                    RawPDXObjectItem::Value(RawPDXValue::Scalar(RawPDXScalar("b"))),
                    RawPDXObjectItem::KV(RawPDXScalar("c"), RawPDXValue::Scalar(RawPDXScalar("d"))),
                ]))),
            ])
        )),
    );
    assert_eq!(
        RawPDXObject::parse_object_inner(r#"a "a1} " {b= { c={"d1 {" =e}} } } a"#),
        Some((
            " a",
            RawPDXObject(vec![
                RawPDXObjectItem::Value(RawPDXValue::Scalar(RawPDXScalar("a"))),
                RawPDXObjectItem::Value(RawPDXValue::Scalar(RawPDXScalar(r#""a1} ""#))),
                RawPDXObjectItem::Value(RawPDXValue::Object(RawPDXObject(vec![RawPDXObjectItem::KV(
                    RawPDXScalar("b"),
                    RawPDXValue::Object(RawPDXObject(vec![RawPDXObjectItem::KV(
                        RawPDXScalar("c"),
                        RawPDXValue::Object(RawPDXObject(vec![RawPDXObjectItem::KV(
                            RawPDXScalar(r#""d1 {""#),
                            RawPDXValue::Scalar(RawPDXScalar("e"))
                        )])),
                    )])),
                )]))),
            ])
        )),
    );
    assert_eq!(
        RawPDXObject::parse_object_inner("a{b}"),
        RawPDXObject::parse_object_inner("a={b}"),
    );

    assert_eq!(
        RawEU4Object::parse_object_inner("a {b c=d}"),
        Some((
            "",
            RawEU4Object(vec![
                RawEU4ObjectItem::Value(RawEU4Value::Scalar(RawEU4Scalar("a"))),
                RawEU4ObjectItem::Value(RawEU4Value::Object(RawEU4Object(vec![
                    RawEU4ObjectItem::Value(RawEU4Value::Scalar(RawEU4Scalar("b"))),
                    RawEU4ObjectItem::KV(RawEU4Scalar("c"), RawEU4Value::Scalar(RawEU4Scalar("d"))),
                ]))),
            ])
        )),
    );
    assert_eq!(
        RawEU4Object::parse_object_inner(r#"a "a1} " {b= { c={"d1 {" =e}} } } a"#),
        Some((
            " a",
            RawEU4Object(vec![
                RawEU4ObjectItem::Value(RawEU4Value::Scalar(RawEU4Scalar("a"))),
                RawEU4ObjectItem::Value(RawEU4Value::Scalar(RawEU4Scalar(r#""a1} ""#))),
                RawEU4ObjectItem::Value(RawEU4Value::Object(RawEU4Object(vec![RawEU4ObjectItem::KV(
                    RawEU4Scalar("b"),
                    RawEU4Value::Object(RawEU4Object(vec![RawEU4ObjectItem::KV(
                        RawEU4Scalar("c"),
                        RawEU4Value::Object(RawEU4Object(vec![RawEU4ObjectItem::KV(
                            RawEU4Scalar(r#""d1 {""#),
                            RawEU4Value::Scalar(RawEU4Scalar("e"))
                        )])),
                    )])),
                )]))),
            ])
        )),
    );
    assert_eq!(
        RawEU4Object::parse_object_inner("a{b}"),
        RawEU4Object::parse_object_inner("a={b}"),
    );
}
