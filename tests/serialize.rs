use glyphslib::schema::Axis;
use glyphslib::ser::{escape_string, hex_digits_for_byte, to_string};
use glyphslib::value::{Plist, Real};

#[test]
fn hex_to_ascii() {
    assert_eq!(hex_digits_for_byte(0x01), ['0', '1']);
    assert_eq!(hex_digits_for_byte(0x00), ['0', '0']);
    assert_eq!(hex_digits_for_byte(0xff), ['f', 'f']);
    assert_eq!(hex_digits_for_byte(0xf0), ['f', '0']);
    assert_eq!(hex_digits_for_byte(0x0f), ['0', 'f']);
}

#[test]
fn test_serialize() {
    let plist = Plist::Array(vec![
        Plist::String("hello".to_string()),
        Plist::String("world".to_string()),
    ]);
    let s = to_string(&plist).unwrap();
    assert_eq!(s, r#"(hello, world)"#);
}

#[test]
fn test_serialize_map() {
    let plist_str = "{\nfoo = bar;\nhello = world;\ntuple = (1,2);\n}";
    let plist: Plist = Plist::parse(plist_str).unwrap();
    let s = to_string(&plist).unwrap();
    assert_eq!(s, plist_str);
}

#[test]
fn test_serialize_struct() {
    let plist_str = r#"
{
axes = (
{
hidden = 1;
name = Weight;
tag = wght;
}
);
}"#
    .trim();
    let plist: Plist = Plist::parse(plist_str).unwrap();
    let s = to_string(&plist).unwrap();
    assert_eq!(s, plist_str);
}

#[test]
fn test_vec_axis() {
    let foo = vec![Axis {
        hidden: true,
        name: "Weight".to_string(),
        tag: "wght".to_string(),
    }];
    let plist = Plist::Array(foo.iter().map(|a| a.to_plist()).collect());
    let s = to_string(&plist).unwrap();
    let expected = "(\n{\nhidden = 1;\nname = Weight;\ntag = wght;\n}\n)";
    assert_eq!(s, expected);
}

#[test]
fn test_string_escaping() {
    let str = "files/LinkedFontv3.glyphs";
    let mut buf = String::new();
    escape_string(&mut buf, str);
    assert_eq!(buf, "\"files/LinkedFontv3.glyphs\"");
}

#[test]
fn quoting_boundary() {
    let s = |t: &str| to_string(&Plist::String(t.to_string())).unwrap();
    assert_eq!(s("abc123"), "abc123");
    assert_eq!(s("123"), "\"123\"");
    assert_eq!(s("a b"), "\"a b\"");
    assert_eq!(s(""), "\"\"");
    assert_eq!(s("1.5"), "\"1.5\"");
    assert_eq!(s("say \"hi\" \\ bye"), "\"say \\\"hi\\\" \\\\ bye\"");
    assert_eq!(s("line\nbreak"), "\"line\nbreak\"");
}

#[test]
fn float_rounding() {
    let p = Plist::parse("1.00004999").unwrap();
    assert_eq!(to_string(&p).unwrap(), "1.0");
    let p = Plist::parse("-0.12345").unwrap();
    assert_eq!(to_string(&p).unwrap(), "-0.1235");
    assert_eq!(to_string(&Plist::Float(Real { units: 15000 })).unwrap(), "1.5");
    assert_eq!(to_string(&Plist::Float(Real { units: 1 })).unwrap(), "0.0001");
    assert_eq!(to_string(&Plist::Float(Real { units: -20000 })).unwrap(), "-2.0");
}

#[test]
fn integers() {
    assert_eq!(to_string(&Plist::Integer(0)).unwrap(), "0");
    assert_eq!(to_string(&Plist::Integer(-42)).unwrap(), "-42");
    assert_eq!(
        to_string(&Plist::Integer(i64::MIN)).unwrap(),
        "-9223372036854775808"
    );
    assert_eq!(
        to_string(&Plist::Integer(i64::MAX)).unwrap(),
        "9223372036854775807"
    );
}

#[test]
fn array_layout() {
    let nums = Plist::Array(vec![Plist::Integer(1), Plist::Integer(2), Plist::Integer(3)]);
    assert_eq!(to_string(&nums).unwrap(), "(1,2,3)");
    let words = Plist::Array(vec![
        Plist::String("a".to_string()),
        Plist::String("b".to_string()),
    ]);
    assert_eq!(to_string(&words).unwrap(), "(a, b)");
    let dicts = Plist::Array(vec![Plist::Dictionary(vec![(
        "k".to_string(),
        Plist::Integer(1),
    )])]);
    assert_eq!(to_string(&dicts).unwrap(), "(\n{\nk = 1;\n}\n)");
    assert_eq!(to_string(&Plist::Array(vec![])).unwrap(), "()");
    let nested = Plist::Array(vec![Plist::Array(vec![])]);
    assert_eq!(to_string(&nested).unwrap(), "(\n()\n)");
}

#[test]
fn data_and_empty_dict() {
    assert_eq!(
        to_string(&Plist::Data(vec![0x00, 0xab, 0x10])).unwrap(),
        "<00ab10>"
    );
    assert_eq!(to_string(&Plist::Dictionary(vec![])).unwrap(), "{\n}");
}
