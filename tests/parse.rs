use glyphslib::error::{Error, LineColumn};
use glyphslib::ser::to_string;
use glyphslib::value::Plist;

fn canon(text: &str) -> String {
    to_string(&Plist::parse(text).unwrap()).unwrap()
}

#[test]
fn round_trip_text() {
    let text = "{ a = ( 1 , 2.5 , \"x y\" , <0aff> ) ; \"b c\" = { d = \"123\"; }; e = -7; }";
    let once = canon(text);
    let twice = canon(&once);
    assert_eq!(once, twice);
    assert_eq!(
        once,
        "{\na = (1, 2.5, \"x y\", <0aff>);\n\"b c\" = {\nd = \"123\";\n};\ne = -7;\n}"
    );
}

#[test]
fn numbers_and_atoms() {
    assert!(matches!(Plist::parse("42").unwrap(), Plist::Integer(42)));
    assert!(matches!(Plist::parse("-3").unwrap(), Plist::Integer(-3)));
    assert!(matches!(Plist::parse("1.5").unwrap(), Plist::Float(r) if r.units == 15000));
    assert!(matches!(Plist::parse(".5").unwrap(), Plist::Float(r) if r.units == 5000));
    match Plist::parse("abc.def").unwrap() {
        Plist::String(s) => assert_eq!(s, "abc.def"),
        _ => panic!("expected a string"),
    }
    match Plist::parse("99999999999999999999").unwrap() {
        Plist::String(s) => assert_eq!(s, "99999999999999999999"),
        _ => panic!("expected a string"),
    }
}

#[test]
fn escapes() {
    match Plist::parse("\"a\\\"b\\\\c\\nd\\U0041\"").unwrap() {
        Plist::String(s) => assert_eq!(s, "a\"b\\c\ndA"),
        _ => panic!("expected a string"),
    }
}

#[test]
fn duplicate_keys_last_wins() {
    let p = Plist::parse("{a = 1; b = 2; a = 3;}").unwrap();
    assert_eq!(to_string(&p).unwrap(), "{\na = 3;\nb = 2;\n}");
}

#[test]
fn trailing_comma_in_array() {
    assert_eq!(canon("(1, 2,)"), "(1,2)");
}

#[test]
fn missing_close_brace_position() {
    let err = Plist::parse("{\na = 1;\nb = 2;\n").unwrap_err();
    assert!(matches!(
        err,
        Error::ExpectedCloseBrace { lc: LineColumn { line: 4, column: 1 } }
    ));
}

#[test]
fn missing_semicolon_position() {
    let err = Plist::parse("{\na = 1\n}").unwrap_err();
    assert!(matches!(
        err,
        Error::ExpectedSemicolon { lc: LineColumn { line: 3, column: 1 } }
    ));
}

#[test]
fn error_kinds() {
    assert!(matches!(
        Plist::parse("\"abc").unwrap_err(),
        Error::UnclosedString { lc: LineColumn { line: 1, column: 1 } }
    ));
    assert!(matches!(
        Plist::parse("<0a").unwrap_err(),
        Error::UnclosedData { .. }
    ));
    assert!(matches!(
        Plist::parse("<0g>").unwrap_err(),
        Error::BadData { lc: LineColumn { line: 1, column: 3 } }
    ));
    assert!(matches!(
        Plist::parse("<0>").unwrap_err(),
        Error::BadData { .. }
    ));
    assert!(matches!(
        Plist::parse("\"\\q\"").unwrap_err(),
        Error::UnknownEscape { .. }
    ));
    match Plist::parse("\"\\UD800\"").unwrap_err() {
        Error::InvalidUnicodeEscape { seq, .. } => assert_eq!(seq, "D800"),
        e => panic!("unexpected {e:?}"),
    }
    assert!(matches!(
        Plist::parse("{(1) = 2;}").unwrap_err(),
        Error::NotAString { token_name: "(", .. }
    ));
    assert!(matches!(
        Plist::parse("{a 1;}").unwrap_err(),
        Error::ExpectedEquals { .. }
    ));
    assert!(matches!(
        Plist::parse("(1 2)").unwrap_err(),
        Error::ExpectedComma { .. }
    ));
    assert!(matches!(
        Plist::parse("(1, 2").unwrap_err(),
        Error::ExpectedCloseParen { .. }
    ));
    assert!(matches!(
        Plist::parse(")").unwrap_err(),
        Error::UnexpectedToken { name: ")", .. }
    ));
    assert!(matches!(
        Plist::parse("").unwrap_err(),
        Error::UnexpectedToken { name: "EOF", .. }
    ));
    assert!(matches!(
        Plist::parse("#").unwrap_err(),
        Error::UnexpectedChar { ch: '#', .. }
    ));
    assert!(matches!(
        Plist::parse("1 2").unwrap_err(),
        Error::UnexpectedChar { ch: '2', .. }
    ));
}

#[test]
fn column_counts_bytes() {
    let err = Plist::parse("\"é\" #").unwrap_err();
    assert!(matches!(
        err,
        Error::UnexpectedChar { ch: '#', lc: LineColumn { line: 1, column: 6 } }
    ));
}

#[test]
fn line_column_from_pos() {
    let s = "ab\ncd\n";
    assert_eq!(LineColumn::from_pos(s, 0), LineColumn { line: 1, column: 1 });
    assert_eq!(LineColumn::from_pos(s, 4), LineColumn { line: 2, column: 2 });
    assert_eq!(LineColumn::from_pos(s, 100), LineColumn { line: 3, column: 1 });
}

#[test]
fn error_at_gives_position() {
    let e = Error::BadDataInternal.at("x\ny", 2);
    assert!(matches!(e, Error::BadData { lc: LineColumn { line: 2, column: 1 } }));
    let e = Error::ExpectedComma { lc: LineColumn { line: 9, column: 9 } }.at("x", 0);
    assert!(matches!(e, Error::ExpectedComma { lc: LineColumn { line: 9, column: 9 } }));
}
