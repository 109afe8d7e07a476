use glyphslib::bridge::{is_glyphs3, one_or_many, serialize_as_tuple, DecodeErrorKind, PathSegment};
use glyphslib::codec::{
    anything_to_bool, deserialize_comma_hexstring, int_to_bool, serialize_comma_hexstring,
    CropRect,
};
use glyphslib::file_name::user_name_to_file_name;
use glyphslib::schema::{Axis, Feature, StylisticSetLabel, Version};
use glyphslib::ser::to_string;
use glyphslib::value::Plist;

#[test]
fn test_username() {
    assert_eq!(user_name_to_file_name("a"), "a");
    assert_eq!(user_name_to_file_name("A"), "A_");
    assert_eq!(user_name_to_file_name("AE"), "A_E_");
    assert_eq!(user_name_to_file_name("Ae"), "A_e");
    assert_eq!(user_name_to_file_name("ae"), "ae");
    assert_eq!(user_name_to_file_name("aE"), "aE_");
    assert_eq!(user_name_to_file_name("a.alt"), "a.alt");
    assert_eq!(user_name_to_file_name("A.alt"), "A_.alt");
    assert_eq!(user_name_to_file_name("A.Alt"), "A_.A_lt");
    assert_eq!(user_name_to_file_name("A.aLt"), "A_.aL_t");
    assert_eq!(user_name_to_file_name("A.alT"), "A_.alT_");
    assert_eq!(user_name_to_file_name("T_H"), "T__H_");
    assert_eq!(user_name_to_file_name("T_h"), "T__h");
    assert_eq!(user_name_to_file_name("t_h"), "t_h");
    assert_eq!(user_name_to_file_name("F_F_I"), "F__F__I_");
    assert_eq!(user_name_to_file_name("f_f_i"), "f_f_i");
    assert_eq!(user_name_to_file_name("Aacute_V.swash"), "A_acute_V_.swash");
    assert_eq!(user_name_to_file_name(".notdef"), "_notdef");
    assert_eq!(user_name_to_file_name("con"), "_con");
    assert_eq!(user_name_to_file_name("CON"), "C_O_N_");
    assert_eq!(user_name_to_file_name("con.alt"), "_con.alt");
    assert_eq!(user_name_to_file_name("alt.con"), "alt._con");
}

#[test]
fn file_name_illegal_and_long() {
    assert_eq!(user_name_to_file_name("a/b:c"), "a_b_c");
    assert_eq!(user_name_to_file_name("Éa"), "É_a");
    let long = "a".repeat(300);
    assert_eq!(user_name_to_file_name(&long), "a".repeat(255));
}

#[test]
fn hex_code_points() {
    let two = serialize_comma_hexstring(&[0x0066, 0x0069]);
    assert_eq!(to_string(&two).unwrap(), "\"0066,0069\"");
    assert_eq!(deserialize_comma_hexstring(&two).unwrap(), vec![0x0066, 0x0069]);
    let one = serialize_comma_hexstring(&[0x0041]);
    match &one {
        Plist::String(s) => assert_eq!(s, "0041"),
        _ => panic!("expected a string"),
    }
    assert_eq!(to_string(&one).unwrap(), "\"0041\"");
    assert_eq!(deserialize_comma_hexstring(&one).unwrap(), vec![0x0041]);
    let big = serialize_comma_hexstring(&[0x1F600]);
    assert_eq!(to_string(&big).unwrap(), "1F600");
    assert_eq!(deserialize_comma_hexstring(&Plist::Integer(41)).unwrap(), vec![0x41]);
    assert_eq!(deserialize_comma_hexstring(&Plist::parse("0041").unwrap()).unwrap(), vec![0x41]);
    assert!(deserialize_comma_hexstring(&Plist::Integer(100000000)).is_err());
    assert!(deserialize_comma_hexstring(&Plist::String("00G1".to_string())).is_err());
    assert!(deserialize_comma_hexstring(&Plist::String("0041,".to_string())).is_err());
    assert!(deserialize_comma_hexstring(&Plist::Integer(-1)).is_err());
}

#[test]
fn crop_rect_nested_braces() {
    let r = CropRect::new(1, 2, 3, 4);
    let p = r.to_plist();
    assert_eq!(to_string(&p).unwrap(), "\"{{1,2},{3, 4}}\"");
    assert_eq!(CropRect::from_plist(&p).unwrap(), r);
    let neg = CropRect::new(-10, 0, 250, -3);
    assert_eq!(CropRect::from_plist(&neg.to_plist()).unwrap(), neg);
    assert!(CropRect::from_plist(&Plist::String("{{1,2},{3}}".to_string())).is_err());
    assert!(CropRect::from_plist(&Plist::Integer(1)).is_err());
}

#[test]
fn axis_round_trip() {
    let a = Axis {
        hidden: false,
        name: "Weight".to_string(),
        tag: "wght".to_string(),
    };
    let p = a.to_plist();
    assert_eq!(to_string(&p).unwrap(), "{\nname = Weight;\ntag = wght;\n}");
    let b = Axis::from_plist(&p).unwrap();
    assert!(!b.hidden);
    assert_eq!(b.name, "Weight");
    assert_eq!(b.tag, "wght");
}

#[test]
fn version_round_trip() {
    let v = Version { major: 3, minor: 7 };
    let back = Version::from_plist(&v.to_plist()).unwrap();
    assert_eq!((back.major, back.minor), (3, 7));
    let absent = Version::from_plist(&Plist::parse("{}").unwrap()).unwrap();
    assert_eq!((absent.major, absent.minor), (0, 0));
}

#[test]
fn feature_alias_and_labels() {
    let text = "{code = \"sub a by b;\"; name = ss01; labels = ({language = dflt; value = Alt;});}";
    let f = Feature::from_plist(&Plist::parse(text).unwrap()).unwrap();
    assert_eq!(f.tag, "ss01");
    assert_eq!(f.labels.len(), 1);
    assert_eq!(f.labels[0].value, "Alt");
    let out = to_string(&f.to_plist()).unwrap();
    assert_eq!(
        out,
        "{\ncode = \"sub a by b;\";\nlabels = (\n{\nlanguage = dflt;\nvalue = Alt;\n}\n);\ntag = ss01;\n}"
    );
    let label = StylisticSetLabel {
        language: "DEU".to_string(),
        value: "x".to_string(),
    };
    let back = StylisticSetLabel::from_plist(&label.to_plist()).unwrap();
    assert_eq!(back.language, "DEU");
}

#[test]
fn decode_error_path() {
    let text = "{code = x; tag = ss01; labels = ({language = dflt; value = a;}, {language = (1); value = b;});}";
    let e = Feature::from_plist(&Plist::parse(text).unwrap()).unwrap_err();
    assert_eq!(e.path.len(), 3);
    assert!(matches!(&e.path[0], PathSegment::Key(k) if k == "labels"));
    assert!(matches!(&e.path[1], PathSegment::Index(1)));
    assert!(matches!(&e.path[2], PathSegment::Key(k) if k == "language"));
    assert!(matches!(e.kind, DecodeErrorKind::TypeMismatch { .. }));
}

#[test]
fn missing_field() {
    let e = Axis::from_plist(&Plist::parse("{tag = wght;}").unwrap()).unwrap_err();
    assert!(e.path.is_empty());
    assert!(matches!(e.kind, DecodeErrorKind::MissingField { field: "name" }));
}

#[test]
fn flags() {
    assert!(int_to_bool(&Plist::Integer(1)).unwrap());
    assert!(!int_to_bool(&Plist::Integer(2)).unwrap());
    assert!(int_to_bool(&Plist::Integer(1000)).is_err());
    assert!(anything_to_bool(&Plist::String("x".to_string())).unwrap());
    assert!(anything_to_bool(&Plist::Array(vec![])).is_err());
}

#[test]
fn format_version_detection() {
    assert!(is_glyphs3(&Plist::parse("{.formatVersion = 3;}").unwrap()));
    assert!(!is_glyphs3(&Plist::parse("{familyName = x;}").unwrap()));
    assert!(!is_glyphs3(&Plist::parse("(1)").unwrap()));
}

#[test]
fn one_or_many_forms() {
    let one = serialize_as_tuple(vec![Plist::Integer(5)]);
    assert_eq!(to_string(&one).unwrap(), "5");
    let two = serialize_as_tuple(vec![Plist::Integer(5), Plist::Integer(6)]);
    assert_eq!(to_string(&two).unwrap(), "(5,6)");
    assert_eq!(one_or_many(&one).len(), 1);
    let back = one_or_many(&two);
    assert_eq!(back.len(), 2);
    assert!(matches!(back[1], Plist::Integer(6)));
}

#[test]
fn crop_rect_failing_field() {
    use_crop_reason("{{1,2},{3}}", "missing right");
    use_crop_reason("{{1,x},{3,4}}", "left not a number");
    use_crop_reason("", "missing top");
}

fn use_crop_reason(text: &str, expected: &str) {
    match CropRect::from_plist(&Plist::String(text.to_string())).unwrap_err().kind {
        DecodeErrorKind::InvalidValue { reason } => assert_eq!(reason, expected),
        k => panic!("unexpected {k:?}"),
    }
}

#[test]
fn three_level_error_path() {
    let text = "{code = x; tag = ss01; labels = ({language = dflt; value = (1);});}";
    let e = Feature::from_plist(&Plist::parse(text).unwrap()).unwrap_err();
    assert_eq!(e.path.len(), 3);
    assert!(matches!(&e.path[0], PathSegment::Key(k) if k == "labels"));
    assert!(matches!(&e.path[1], PathSegment::Index(0)));
    assert!(matches!(&e.path[2], PathSegment::Key(k) if k == "value"));
}
