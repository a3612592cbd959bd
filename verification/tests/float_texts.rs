use cartographer::float_text::is_float_text;

#[test]
fn decimal_texts_that_read() {
    for t in ["1", "1.5", "-1.5", "+2", "5.", ".5", "1e5", "1.5E-3", "2.e+7", "inf", "-Infinity", "NaN", "+nan"] {
        assert!(is_float_text(t), "{t}");
    }
}

#[test]
fn decimal_texts_that_do_not_read() {
    for t in ["", ".", "-", "e5", "1e", "1e+", "1.2.3", "\"1.5\"", " 1", "1 ", "infin", "nanx", "1_0", "0x10", "--1"] {
        assert!(!is_float_text(t), "{t}");
    }
}
