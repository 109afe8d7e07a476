use glyphslib::bridge::DecodeErrorKind;
use glyphslib::codec::{bool_true, is_false, is_one_hundred, is_true, one_hundred, version_two};
use glyphslib::enums::{
    deserialize_export_type, ExportType, LocalizedPropertyKey, MetricType, NodeType, Orientation,
    SingularPropertyKey,
};
use glyphslib::package::{assemble_package, glyph_file_names, ui_display_strings};
use glyphslib::properties::{Color, Metric, Property};
use glyphslib::schema::{
    CustomParameter, FeatureClass, FeaturePrefix, Number, SmartComponentSetting, Stem,
};
use glyphslib::ser::to_string;
use glyphslib::value::Plist;

fn text(s: &str) -> Plist {
    Plist::String(s.to_string())
}

#[test]
fn small_helpers() {
    assert!(is_false(&false));
    assert!(is_true(&true));
    assert!(bool_true());
    assert!(is_one_hundred(&100));
    assert!(!is_one_hundred(&99));
    assert_eq!(one_hundred(), 100);
    assert_eq!(version_two(), 2);
}

#[test]
fn enum_names() {
    assert_eq!(MetricType::CapHeight.name(), "cap height");
    assert_eq!(MetricType::from_plist(&text("x-height")).unwrap(), MetricType::XHeight);
    match MetricType::from_plist(&text("nope")).unwrap_err().kind {
        DecodeErrorKind::UnknownVariant { found } => assert_eq!(found, "nope"),
        k => panic!("unexpected {k:?}"),
    }
    assert_eq!(NodeType::from_plist(&text("qs")).unwrap(), NodeType::QCurveSmooth);
    assert_eq!(Orientation::from_plist(&text("center")).unwrap(), Orientation::Center);
    assert_eq!(deserialize_export_type(&text("variable")).unwrap(), ExportType::Variable);
    assert!(deserialize_export_type(&text("Variable")).is_err());
    assert!(deserialize_export_type(&Plist::Integer(1)).is_err());
    assert_eq!(to_string(&SingularPropertyKey::VendorID.to_plist()).unwrap(), "vendorID");
    assert_eq!(to_string(&MetricType::ItalicAngle.to_plist()).unwrap(), "\"italic angle\"");
}

#[test]
fn colors() {
    assert!(matches!(Color::from_plist(&Plist::Integer(3)).unwrap(), Color::ColorInt(3)));
    let tuple = Plist::parse("(255, 0, 10, 128)").unwrap();
    match Color::from_plist(&tuple).unwrap() {
        Color::ColorTuple(v) => assert_eq!(v, vec![255, 0, 10, 128]),
        c => panic!("unexpected {c:?}"),
    }
    assert!(Color::from_plist(&Plist::Integer(300)).is_err());
    let bad = Color::from_plist(&Plist::parse("(1, 999)").unwrap()).unwrap_err();
    assert_eq!(bad.path.len(), 1);
    let c = Color::ColorTuple(vec![1, 2]);
    assert_eq!(to_string(&c.to_plist()).unwrap(), "(1,2)");
}

#[test]
fn properties_untagged() {
    let p = Property::from_plist(&Plist::parse("{key = designer; value = Someone;}").unwrap());
    match &p {
        Property::SingularProperty { key, value } => {
            assert_eq!(*key, SingularPropertyKey::Designer);
            assert_eq!(value, "Someone");
        }
        _ => panic!("expected a singular property"),
    }
    let l = Property::from_plist(
        &Plist::parse("{key = familyNames; values = ({language = dflt; value = Fam;});}").unwrap(),
    );
    match &l {
        Property::LocalizedProperty { key, values } => {
            assert_eq!(*key, LocalizedPropertyKey::FamilyNames);
            assert_eq!(values[0].value, "Fam");
        }
        _ => panic!("expected a localized property"),
    }
    let junk = Property::from_plist(&Plist::parse("{key = designers; value = X;}").unwrap());
    assert!(matches!(junk, Property::Junk(_)));
    assert_eq!(
        to_string(&junk.to_plist()).unwrap(),
        "{\nkey = designers;\nvalue = X;\n}"
    );
    let made = Property::localized_with_default(LocalizedPropertyKey::Copyrights, "c".to_string());
    assert_eq!(
        to_string(&made.to_plist()).unwrap(),
        "{\nkey = copyrights;\nvalues = (\n{\nlanguage = dflt;\nvalue = c;\n}\n);\n}"
    );
    let single = Property::singular(SingularPropertyKey::UniqueID, "u".to_string());
    assert_eq!(to_string(&single.to_plist()).unwrap(), "{\nkey = uniqueID;\nvalue = u;\n}");
}

#[test]
fn metric_fields() {
    let m = Metric::from_plist(&Plist::parse("{type = ascender;}").unwrap()).unwrap();
    assert_eq!(m.metric_type, Some(MetricType::Ascender));
    assert_eq!(m.name, "");
    assert_eq!(to_string(&m.to_plist()).unwrap(), "{\ntype = ascender;\n}");
    let e = Metric::from_plist(&Plist::parse("{type = bogus;}").unwrap()).unwrap_err();
    assert_eq!(e.path.len(), 1);
}

#[test]
fn records() {
    let stem = Stem::from_plist(&Plist::parse("{name = Vstem; horizontal = 1;}").unwrap()).unwrap();
    assert!(stem.horizontal);
    assert_eq!(to_string(&stem.to_plist()).unwrap(), "{\nname = Vstem;\nhorizontal = 1;\n}");
    let n = Number::from_plist(&Plist::parse("{name = n1;}").unwrap()).unwrap();
    assert_eq!(n.name, "n1");
    let sc = SmartComponentSetting::from_plist(&Plist::parse("{name = Width; topValue = 100;}").unwrap())
        .unwrap();
    assert_eq!((sc.bottom_value, sc.top_value), (0, 100));
    assert_eq!(
        to_string(&sc.to_plist()).unwrap(),
        "{\nbottomValue = 0;\ntopValue = 100;\nname = Width;\n}"
    );
    let fp = FeaturePrefix::from_plist(&Plist::parse("{code = x; tag = Languagesystems;}").unwrap())
        .unwrap();
    assert_eq!(fp.name, "Languagesystems");
    assert_eq!(to_string(&fp.to_plist()).unwrap(), "{\ncode = x;\nname = Languagesystems;\n}");
    let fc = FeatureClass::from_plist(
        &Plist::parse("{automatic = 1; code = \"A B\"; name = Upper; notes = n;}").unwrap(),
    )
    .unwrap();
    assert!(fc.automatic && !fc.disabled);
    assert_eq!(fc.notes.as_deref(), Some("n"));
    assert_eq!(
        to_string(&fc.to_plist()).unwrap(),
        "{\nautomatic = 1;\ncode = \"A B\";\nname = Upper;\nnotes = n;\n}"
    );
    let cp = CustomParameter::from_plist(&Plist::parse("{name = p; value = (1,2);}").unwrap()).unwrap();
    assert_eq!(to_string(&cp.value).unwrap(), "(1,2)");
    assert_eq!(to_string(&cp.to_plist()).unwrap(), "{\nname = p;\nvalue = (1,2);\n}");
    assert!(CustomParameter::from_plist(&Plist::parse("{name = p;}").unwrap()).is_err());
}

#[test]
fn package_helpers() {
    let ui = Plist::parse("{displayStrings = (abc);}").unwrap();
    assert_eq!(to_string(&ui_display_strings(&ui).unwrap()).unwrap(), "(abc)");
    let none = ui_display_strings(&Plist::parse("{}").unwrap()).unwrap();
    assert_eq!(to_string(&none).unwrap(), "()");
    assert!(ui_display_strings(&Plist::Integer(1)).is_err());
    let order = Plist::parse("(A, b, 3, .notdef)").unwrap();
    assert_eq!(glyph_file_names(&order).unwrap(), vec!["A_", "b", "_notdef"]);
    let top = Plist::parse("{familyName = F;}").unwrap();
    let font = assemble_package(top, Some(ui_display_strings(&ui).unwrap()), vec![Plist::Integer(1)])
        .unwrap();
    assert_eq!(
        to_string(&font).unwrap(),
        "{\nfamilyName = F;\nDisplayStrings = (abc);\nglyphs = (1);\n}"
    );
    assert!(assemble_package(Plist::Integer(0), None, vec![]).is_err());
}

#[test]
fn deep_clone_is_equal() {
    let p = Plist::parse("{a = (1, {b = <00>;});}").unwrap();
    let q = p.deep_clone();
    assert_eq!(to_string(&p).unwrap(), to_string(&q).unwrap());
    assert!(p.as_dict().is_some());
    assert_eq!(text("x").as_str(), Some("x"));
}

#[test]
fn split_into_package() {
    let font = Plist::parse(
        "{.formatVersion = 3; DisplayStrings = (ab); familyName = F; glyphs = ({glyphname = A; layers = ();}, {glyphname = b;});}",
    )
    .unwrap();
    let parts = glyphslib::package::split_package(&font).unwrap();
    assert_eq!(
        to_string(&parts.fontinfo).unwrap(),
        "{\n.formatVersion = 3;\nfamilyName = F;\n}"
    );
    assert_eq!(to_string(&parts.order).unwrap(), "(A, b)");
    assert_eq!(
        to_string(parts.ui_state.as_ref().unwrap()).unwrap(),
        "{\ndisplayStrings = (ab);\n}"
    );
    assert_eq!(parts.glyphs.len(), 2);
    assert_eq!(parts.glyphs[0].0, "A_");
    assert_eq!(to_string(&parts.glyphs[1].1).unwrap(), "{\nglyphname = b;\n}");
    let old = Plist::parse("{familyName = F;}").unwrap();
    assert!(glyphslib::package::split_package(&old).is_err());
    let unnamed = Plist::parse("{.formatVersion = 3; glyphs = ({layers = ();});}").unwrap();
    assert!(glyphslib::package::split_package(&unnamed).is_err());
}

#[test]
fn unknown_export_type_named() {
    match deserialize_export_type(&text("dynamic")).unwrap_err().kind {
        DecodeErrorKind::UnknownVariant { found } => assert_eq!(found, "dynamic"),
        k => panic!("unexpected {k:?}"),
    }
}
