use glyphslib::curly::{curly_numbers_of, serialize_commify, AlignmentZone, Transform};
use glyphslib::ser::to_string;
use glyphslib::value::{Plist, Real};

fn text(s: &str) -> Plist {
    Plist::String(s.to_string())
}

#[test]
fn alignment_zone_round_trip() {
    let z = AlignmentZone::from_plist(&text("{800, 15}")).unwrap();
    assert_eq!(z.position, Real { units: 8_000_000 });
    assert_eq!(z.overshoot, Real { units: 150_000 });
    match z.to_plist() {
        Plist::String(s) => assert_eq!(s, "{800, 15}"),
        _ => panic!("expected a string"),
    }
    assert_eq!(to_string(&z.to_plist()).unwrap(), "\"{800, 15}\"");
    assert!(AlignmentZone::from_plist(&text("{800}")).is_err());
    assert!(AlignmentZone::from_plist(&Plist::Integer(800)).is_err());
}

#[test]
fn transform_round_trip() {
    let t = Transform::from_plist(&text("{1, 0, 0, 1, 50, -20.5}")).unwrap();
    assert_eq!(t.t_y, Real { units: -205_000 });
    match t.to_plist() {
        Plist::String(s) => assert_eq!(s, "{1, 0, 0, 1, 50, -20.5}"),
        _ => panic!("expected a string"),
    }
    assert!(Transform::from_plist(&text("{1, 0, 0, 1, 50}")).is_err());
    assert!(Transform::from_plist(&text("{1, 0, x, 1, 50, 2}")).is_err());
}

#[test]
fn curly_numbers() {
    let v = curly_numbers_of("{{0.5, -1.25}}").unwrap();
    assert_eq!(v, vec![Real { units: 5000 }, Real { units: -12500 }]);
    assert!(curly_numbers_of("{}").is_none());
    let p = serialize_commify(&[Real { units: 10000 }, Real { units: 1 }]);
    assert_eq!(to_string(&p).unwrap(), "\"{1, 0.0001}\"");
}

#[test]
fn text_nodes() {
    let n = glyphslib::text_node::Node::from_plist(&text("100 -20.5 CURVE SMOOTH")).unwrap();
    assert_eq!(n.x, Real { units: 1_000_000 });
    assert_eq!(n.node_type, glyphslib::enums::NodeType::CurveSmooth);
    match n.to_plist() {
        Plist::String(s) => assert_eq!(s, "100 -20.5 CURVE SMOOTH"),
        _ => panic!("expected a string"),
    }
    assert!(glyphslib::text_node::Node::from_plist(&text("1 2 OFFCURVE SMOOTH")).is_err());
    assert!(glyphslib::text_node::Node::from_plist(&text("1 2")).is_err());
    assert!(glyphslib::text_node::Node::from_plist(&text("a 2 LINE")).is_err());
}

#[test]
fn tuple_nodes() {
    let p = Plist::parse("(100, 20.5, l)").unwrap();
    let n = glyphslib::node::Node::from_plist(&p).unwrap();
    assert_eq!(n.y, Real { units: 205_000 });
    assert!(n.user_data.is_none());
    assert_eq!(to_string(&n.to_plist()).unwrap(), "(100, 20.5, l)");
    let with_data = Plist::parse("(1, 2, cs, {a = 1;})").unwrap();
    let m = glyphslib::node::Node::from_plist(&with_data).unwrap();
    assert!(m.user_data.is_some());
    assert_eq!(to_string(&m.to_plist()).unwrap(), "(\n1,\n2,\ncs,\n{\na = 1;\n}\n)");
    assert!(glyphslib::node::Node::from_plist(&Plist::parse("(1, 2)").unwrap()).is_err());
    assert!(glyphslib::node::Node::from_plist(&Plist::parse("(1, 2, zz)").unwrap()).is_err());
}

#[test]
fn loose_numbers() {
    let n = glyphslib::text_node::Node::from_plist(&text("1e2 0 LINE")).unwrap();
    assert_eq!(n.x, Real { units: 1_000_000 });
    let n = glyphslib::text_node::Node::from_plist(&text("+1 0 LINE")).unwrap();
    assert_eq!(n.x, Real { units: 10_000 });
    let n = glyphslib::text_node::Node::from_plist(&text("1\u{a0}2 LINE")).unwrap();
    assert_eq!(n.y, Real { units: 20_000 });
    let z = AlignmentZone::from_plist(&text("{1e2, 15}")).unwrap();
    assert_eq!(z.position, Real { units: 1_000_000 });
    let z = AlignmentZone::from_plist(&text("{+800, 1.5E-3}")).unwrap();
    assert_eq!(z.position, Real { units: 8_000_000 });
    assert_eq!(z.overshoot, Real { units: 15 });
    let v = curly_numbers_of("{0.00005, -0.00005, 1e-30, 0e99}").unwrap();
    assert_eq!(
        v,
        vec![Real { units: 1 }, Real { units: -1 }, Real { units: 0 }, Real { units: 0 }]
    );
    assert!(curly_numbers_of("{1e, 2}").is_none());
    assert!(curly_numbers_of("{1e30, 2}").is_none());
}

#[test]
fn tuple_layout() {
    let p = Plist::parse("(1, 2, cs, {a = 1;})").unwrap();
    let n = glyphslib::node::Node::from_plist(&p).unwrap();
    assert_eq!(n.to_tuple_string(), "(1, 2, cs, {\na = 1;\n})");
    let items = vec![Plist::Integer(1), Plist::Array(vec![Plist::Integer(2)])];
    assert_eq!(glyphslib::ser::tuple_to_string(&items), "(1, (2))");
}
