use vstd::prelude::*;

use crate::bridge::{
    dict_of, field, lookup, opt_string_field, opt_string_field_of, opt_view, record_entries,
    string_of_model, DecodeError, DecodeErrorKind,
};
use crate::enums::{
    localized_property_key_name, metric_type_name, singular_property_key_name,
    LocalizedPropertyKey, MetricType, SingularPropertyKey,
};
use crate::schema::{localized_value_decodes, localized_value_model, LocalizedValue};
use crate::value::{entries_view, items_view, plist_view, Plist, PlistModel};

verus! {

/// A font metric: what it measures, and an optional filter.
#[derive(Debug, Default)]
pub struct Metric {
    pub filter: Option<String>,
    /// Written only when not empty.
    pub name: String,
    /// Written under `type`.
    pub metric_type: Option<MetricType>,
}

pub open spec fn metric_type_entry(t: Option<MetricType>) -> Seq<(Seq<char>, PlistModel)> {
    match t {
        Some(x) => seq![("type"@, PlistModel::String(metric_type_name(x)))],
        None => Seq::empty(),
    }
}

pub open spec fn metric_model(x: Metric) -> PlistModel {
    PlistModel::Dictionary(
        (match x.filter {
            Some(f) => seq![("filter"@, PlistModel::String(f@))],
            None => Seq::empty(),
        }) + (if x.name@.len() > 0 {
            seq![("name"@, PlistModel::String(x.name@))]
        } else {
            Seq::empty()
        }) + metric_type_entry(x.metric_type),
    )
}

pub open spec fn metric_decodable(m: PlistModel) -> bool {
    match dict_of(m) {
        Some(d) => {
            &&& opt_string_field(d, "filter"@) is Some
            &&& match field(d, "name"@) {
                None => true,
                Some(n) => string_of_model(n) is Some,
            }
            &&& match field(d, "type"@) {
                None => true,
                Some(t) => exists|k: MetricType| t == PlistModel::String(metric_type_name(k)),
            }
        },
        None => false,
    }
}

pub open spec fn metric_decodes(m: PlistModel, x: Metric) -> bool {
    match dict_of(m) {
        Some(d) => {
            &&& opt_string_field(d, "filter"@) == Some(opt_view(x.filter))
            &&& match field(d, "name"@) {
                None => x.name@.len() == 0,
                Some(n) => string_of_model(n) == Some(x.name@),
            }
            &&& match field(d, "type"@) {
                None => x.metric_type is None,
                Some(t) => x.metric_type matches Some(k) && t == PlistModel::String(
                    metric_type_name(k),
                ),
            }
        },
        None => false,
    }
}

fn push_entry(entries: &mut Vec<(String, Plist)>, key: &str, v: Plist)
    ensures
        entries_view(final(entries)@) == entries_view(old(entries)@).push((key@, plist_view(v))),
{
    proof {
        crate::ser::lemma_entries_view(entries@);
    }
    entries.push(crate::bridge::entry(key, v));
    proof {
        crate::ser::lemma_entries_view(entries@);
    }
    assert(entries_view(entries@) =~= entries_view(old(entries)@).push((key@, plist_view(v))));
}

impl Metric {
    pub fn to_plist(&self) -> (r: Plist)
        ensures
            plist_view(r) == metric_model(*self),
    {
        let mut entries: Vec<(String, Plist)> = Vec::new();
        assert(entries_view(entries@) =~= Seq::empty());
        match &self.filter {
            Some(f) => push_entry(&mut entries, "filter", Plist::String(f.clone())),
            None => {},
        }
        let ghost a = entries_view(entries@);
        if !self.name.as_str().is_empty() {
            push_entry(&mut entries, "name", Plist::String(self.name.clone()));
        }
        let ghost b = entries_view(entries@);
        assert(b =~= a + (if self.name@.len() > 0 {
            seq![("name"@, PlistModel::String(self.name@))]
        } else {
            Seq::empty()
        }));
        match &self.metric_type {
            Some(t) => push_entry(&mut entries, "type", t.to_plist()),
            None => {},
        }
        assert(entries_view(entries@) =~= dict_of(metric_model(*self))->Some_0);
        Plist::Dictionary(entries)
    }

    pub fn from_plist(v: &Plist) -> (r: Result<Metric, DecodeError>)
        ensures
            r is Ok <==> metric_decodable(plist_view(*v)),
            r matches Ok(x) ==> metric_decodes(plist_view(*v), x),
    {
        let entries = record_entries(v)?;
        let filter = opt_string_field_of(entries, "filter")?;
        let name = match lookup(entries, "name") {
            None => String::new(),
            Some(n) => match crate::bridge::decode_string(n) {
                Ok(s) => s,
                Err(e) => {
                    return Err(e.within_key("name"));
                },
            },
        };
        let metric_type = match lookup(entries, "type") {
            None => None,
            Some(t) => match MetricType::from_plist(t) {
                Ok(k) => Some(k),
                Err(e) => {
                    return Err(e.within_key("type"));
                },
            },
        };
        Ok(Metric { filter, name, metric_type })
    }
}

/// A color: the index of a color label, or the components of a color.
#[derive(Debug)]
pub enum Color {
    /// The index of the color label.
    ColorInt(u8),
    /// Color components (RGB, gray or CMYK, with alpha).
    ColorTuple(Vec<u8>),
}

pub open spec fn byte_of(m: PlistModel) -> Option<u8> {
    match m {
        PlistModel::Integer(n) => if 0 <= n <= 255 {
            Some(n as u8)
        } else {
            None
        },
        _ => None,
    }
}

pub open spec fn color_model(x: Color) -> PlistModel {
    match x {
        Color::ColorInt(n) => PlistModel::Integer(n as int),
        Color::ColorTuple(v) => PlistModel::Array(
            Seq::new(v@.len(), |i: int| PlistModel::Integer(v@[i] as int)),
        ),
    }
}

/// A color is read as a label index when the value is one byte, else as a
/// list of bytes.
pub open spec fn color_decodes(m: PlistModel, x: Color) -> bool {
    match m {
        PlistModel::Integer(_) => byte_of(m) is Some && x == Color::ColorInt(byte_of(m)->Some_0),
        PlistModel::Array(items) => x matches Color::ColorTuple(v) && v@.len() == items.len() && (
        forall|i: int| 0 <= i < items.len() ==> byte_of(#[trigger] items[i]) == Some(v@[i])),
        _ => false,
    }
}

pub open spec fn color_decodable(m: PlistModel) -> bool {
    match m {
        PlistModel::Integer(_) => byte_of(m) is Some,
        PlistModel::Array(items) => forall|i: int|
            0 <= i < items.len() ==> (#[trigger] byte_of(items[i])) is Some,
        _ => false,
    }
}

impl Color {
    pub fn to_plist(&self) -> (r: Plist)
        ensures
            plist_view(r) == color_model(*self),
    {
        match self {
            Color::ColorInt(n) => Plist::Integer(*n as i64),
            Color::ColorTuple(v) => {
                let mut out: Vec<Plist> = Vec::new();
                let mut i: usize = 0;
                while i < v.len()
                    invariant
                        i <= v@.len(),
                        out@.len() == i,
                        forall|j: int|
                            0 <= j < i ==> plist_view(#[trigger] out@[j]) == PlistModel::Integer(
                                v@[j] as int,
                            ),
                    decreases v@.len() - i,
                {
                    out.push(Plist::Integer(v[i] as i64));
                    i = i + 1;
                }
                proof {
                    crate::ser::lemma_items_view(out@);
                }
                assert(items_view(out@) =~= Seq::new(
                    v@.len(),
                    |i: int| PlistModel::Integer(v@[i] as int),
                ));
                Plist::Array(out)
            },
        }
    }

    pub fn from_plist(v: &Plist) -> (r: Result<Color, DecodeError>)
        ensures
            r is Ok <==> color_decodable(plist_view(*v)),
            r matches Ok(x) ==> color_decodes(plist_view(*v), x),
    {
        match v {
            Plist::Integer(n) => {
                if 0 <= *n && *n <= 255 {
                    Ok(Color::ColorInt(*n as u8))
                } else {
                    Err(DecodeError::new(DecodeErrorKind::InvalidValue { reason: "not a byte" }))
                }
            },
            Plist::Array(items) => {
                proof {
                    crate::ser::lemma_items_view(items@);
                }
                let ghost m = items_view(items@);
                let mut out: Vec<u8> = Vec::new();
                let mut i: usize = 0;
                while i < items.len()
                    invariant
                        i <= items@.len(),
                        m == items_view(items@),
                        m.len() == items@.len(),
                        plist_view(*v) == PlistModel::Array(m),
                        forall|j: int|
                            0 <= j < items@.len() ==> #[trigger] m[j] == plist_view(items@[j]),
                        out@.len() == i,
                        forall|j: int| 0 <= j < i ==> byte_of(#[trigger] m[j]) == Some(out@[j]),
                    decreases items@.len() - i,
                {
                    match &items[i] {
                        Plist::Integer(n) => {
                            if 0 <= *n && *n <= 255 {
                                out.push(*n as u8);
                            } else {
                                assert(byte_of(m[i as int]) is None);
                                return Err(
                                    DecodeError::new(
                                        DecodeErrorKind::InvalidValue { reason: "not a byte" },
                                    ).within_index(i),
                                );
                            }
                        },
                        _ => {
                            assert(byte_of(m[i as int]) is None);
                            return Err(
                                DecodeError::new(
                                    DecodeErrorKind::TypeMismatch { expected: "integer" },
                                ).within_index(i),
                            );
                        },
                    }
                    i = i + 1;
                }
                Ok(Color::ColorTuple(out))
            },
            _ => Err(DecodeError::new(DecodeErrorKind::TypeMismatch { expected: "color" })),
        }
    }
}

/// A font property. Its wire form has no tag: the first variant whose fields
/// fit the value is taken, in the order below.
#[derive(Debug)]
pub enum Property {
    SingularProperty { key: SingularPropertyKey, value: String },
    LocalizedProperty { key: LocalizedPropertyKey, values: Vec<LocalizedValue> },
    /// A property that fits neither form, kept as it is.
    Junk(Plist),
}

pub open spec fn localized_values_model(xs: Seq<LocalizedValue>) -> Seq<PlistModel> {
    Seq::new(xs.len(), |i: int| localized_value_model(xs[i]))
}

pub open spec fn property_model(x: Property) -> PlistModel {
    match x {
        Property::SingularProperty { key, value } => PlistModel::Dictionary(
            seq![
                ("key"@, PlistModel::String(singular_property_key_name(key))),
                ("value"@, PlistModel::String(value@)),
            ],
        ),
        Property::LocalizedProperty { key, values } => PlistModel::Dictionary(
            seq![
                ("key"@, PlistModel::String(localized_property_key_name(key))),
                ("values"@, PlistModel::Array(localized_values_model(values@))),
            ],
        ),
        Property::Junk(p) => plist_view(p),
    }
}

/// The value is a dictionary whose `key` names a singular key and whose
/// `value` is text.
pub open spec fn fits_singular(m: PlistModel) -> bool {
    match dict_of(m) {
        Some(d) => (exists|k: SingularPropertyKey|
            field(d, "key"@) == Some(PlistModel::String(singular_property_key_name(k))))
            && field(d, "value"@) matches Some(PlistModel::String(_)),
        None => false,
    }
}

pub open spec fn values_fit(o: Option<PlistModel>) -> bool {
    match o {
        Some(PlistModel::Array(items)) => forall|i: int|
            0 <= i < items.len() ==> crate::schema::label_decodable(#[trigger] items[i]),
        _ => false,
    }
}

pub open spec fn values_decode(o: Option<PlistModel>, values: Seq<LocalizedValue>) -> bool {
    match o {
        Some(PlistModel::Array(items)) => items.len() == values.len() && forall|i: int|
            0 <= i < items.len() ==> localized_value_decodes(#[trigger] items[i], values[i]),
        _ => false,
    }
}

/// The value is a dictionary whose `key` names a localized key and whose
/// `values` is an array of texts in languages.
pub open spec fn fits_localized(m: PlistModel) -> bool {
    match dict_of(m) {
        Some(d) => (exists|k: LocalizedPropertyKey|
            field(d, "key"@) == Some(PlistModel::String(localized_property_key_name(k))))
            && values_fit(field(d, "values"@)),
        None => false,
    }
}

pub open spec fn property_decodes(m: PlistModel, x: Property) -> bool {
    if fits_singular(m) {
        x matches Property::SingularProperty { key, value } && field(dict_of(m)->Some_0, "key"@)
            == Some(PlistModel::String(singular_property_key_name(key))) && field(
            dict_of(m)->Some_0,
            "value"@,
        ) == Some(PlistModel::String(value@))
    } else if fits_localized(m) {
        x matches Property::LocalizedProperty { key, values } && field(dict_of(m)->Some_0, "key"@)
            == Some(PlistModel::String(localized_property_key_name(key))) && values_decode(
            field(dict_of(m)->Some_0, "values"@),
            values@,
        )
    } else {
        x matches Property::Junk(p) && plist_view(p) == m
    }
}

fn singular_from(entries: &Vec<(String, Plist)>) -> (r: Option<Property>)
    ensures
        r is Some <==> fits_singular(PlistModel::Dictionary(entries_view(entries@))),
        r matches Some(x) ==> property_decodes(PlistModel::Dictionary(entries_view(entries@)), x),
{
    let ghost m = PlistModel::Dictionary(entries_view(entries@));
    let key = match lookup(entries, "key") {
        Some(Plist::String(k)) => match SingularPropertyKey::from_name(k) {
            Some(key) => key,
            None => {
                return None;
            },
        },
        _ => {
            return None;
        },
    };
    match lookup(entries, "value") {
        Some(Plist::String(value)) => Some(Property::SingularProperty { key, value: value.clone() }),
        _ => None,
    }
}

proof fn lemma_values_unfit(ms: Seq<PlistModel>, i: int)
    requires
        0 <= i < ms.len(),
        !crate::schema::label_decodable(ms[i]),
    ensures
        !values_fit(Some(PlistModel::Array(ms))),
{
    let a = Some(PlistModel::Array(ms));
    assert(a->Some_0->Array_0 == ms);
}

fn localized_from(entries: &Vec<(String, Plist)>) -> (r: Option<Property>)
    requires
        !fits_singular(PlistModel::Dictionary(entries_view(entries@))),
    ensures
        r is Some <==> fits_localized(PlistModel::Dictionary(entries_view(entries@))),
        r matches Some(x) ==> property_decodes(PlistModel::Dictionary(entries_view(entries@)), x),
{
    let ghost m = PlistModel::Dictionary(entries_view(entries@));
    let key = match lookup(entries, "key") {
        Some(Plist::String(k)) => match LocalizedPropertyKey::from_name(k) {
            Some(key) => key,
            None => {
                return None;
            },
        },
        _ => {
            return None;
        },
    };
    let items = match lookup(entries, "values") {
        Some(Plist::Array(items)) => items,
        _ => {
            return None;
        },
    };
    proof {
        crate::ser::lemma_items_view(items@);
    }
    let ghost im = items_view(items@);
    let mut values: Vec<LocalizedValue> = Vec::new();
    let mut i: usize = 0;
    while i < items.len()
        invariant
            i <= items@.len(),
            im == items_view(items@),
            im.len() == items@.len(),
            forall|j: int| 0 <= j < items@.len() ==> #[trigger] im[j] == plist_view(items@[j]),
            values@.len() == i,
            forall|j: int| 0 <= j < i ==> localized_value_decodes(#[trigger] im[j], values@[j]),
            forall|j: int| 0 <= j < i ==> crate::schema::label_decodable(#[trigger] im[j]),
            crate::bridge::field(entries_view(entries@), "values"@) == Some(PlistModel::Array(im)),
        decreases items@.len() - i,
    {
        match LocalizedValue::from_plist(&items[i]) {
            Ok(x) => values.push(x),
            Err(_) => {
                proof {
                    lemma_values_unfit(im, i as int);
                }
                return None;
            },
        }
        i = i + 1;
    }
    Some(Property::LocalizedProperty { key, values })
}

impl Property {
    pub fn singular(key: SingularPropertyKey, value: String) -> (r: Property)
        ensures
            r matches Property::SingularProperty { key: k, value: v } && k == key && v@ == value@,
    {
        Property::SingularProperty { key, value }
    }

    /// A localized property with one value, in the default language `dflt`.
    pub fn localized_with_default(key: LocalizedPropertyKey, value: String) -> (r: Property)
        ensures
            r matches Property::LocalizedProperty { key: k, values } && k == key && values@.len()
                == 1 && values@[0].language@ == "dflt"@ && values@[0].value@ == value@,
    {
        let mut values: Vec<LocalizedValue> = Vec::new();
        values.push(LocalizedValue { language: String::from_str("dflt"), value });
        Property::LocalizedProperty { key, values }
    }

    pub fn to_plist(&self) -> (r: Plist)
        ensures
            plist_view(r) == property_model(*self),
    {
        match self {
            Property::SingularProperty { key, value } => {
                let mut entries: Vec<(String, Plist)> = Vec::new();
                assert(entries_view(entries@) =~= Seq::empty());
                push_entry(&mut entries, "key", key.to_plist());
                push_entry(&mut entries, "value", Plist::String(value.clone()));
                assert(entries_view(entries@) =~= dict_of(property_model(*self))->Some_0);
                Plist::Dictionary(entries)
            },
            Property::LocalizedProperty { key, values } => {
                let mut items: Vec<Plist> = Vec::new();
                let mut i: usize = 0;
                while i < values.len()
                    invariant
                        i <= values@.len(),
                        items@.len() == i,
                        forall|j: int|
                            0 <= j < i ==> plist_view(#[trigger] items@[j]) == localized_value_model(
                                values@[j],
                            ),
                    decreases values@.len() - i,
                {
                    items.push(values[i].to_plist());
                    i = i + 1;
                }
                proof {
                    crate::ser::lemma_items_view(items@);
                }
                assert(items_view(items@) =~= localized_values_model(values@));
                let mut entries: Vec<(String, Plist)> = Vec::new();
                assert(entries_view(entries@) =~= Seq::empty());
                push_entry(&mut entries, "key", key.to_plist());
                push_entry(&mut entries, "values", Plist::Array(items));
                assert(entries_view(entries@) =~= dict_of(property_model(*self))->Some_0);
                Plist::Dictionary(entries)
            },
            Property::Junk(p) => p.deep_clone(),
        }
    }

    /// Reads a property: the singular form if it fits, else the localized
    /// form if it fits, else the value as it is.
    pub fn from_plist(v: &Plist) -> (r: Property)
        ensures
            property_decodes(plist_view(*v), r),
    {
        match v {
            Plist::Dictionary(entries) => {
                if let Some(p) = singular_from(entries) {
                    return p;
                }
                if let Some(p) = localized_from(entries) {
                    return p;
                }
                Property::Junk(v.deep_clone())
            },
            _ => Property::Junk(v.deep_clone()),
        }
    }
}

} // verus!
