use vstd::prelude::*;

use crate::bridge::{
    is_index, is_key, PathSegment,
    bool_field, bool_field_of, dict_of, entry, field, i32_field, i32_field_of, lemma_field_absent,
    lemma_field_at, lemma_field_concat, lemma_field_single, lookup, opt_string_field, opt_string_field_of, opt_view, record_entries,
    string_field, string_field_of, DecodeError, DecodeErrorKind,
};
use crate::value::{entries_view, items_view, plist_view, Plist, PlistModel};

verus! {

/// A design axis of a font.
#[derive(Debug, Default)]
pub struct Axis {
    /// If the axis should be visible in the UI.
    pub hidden: bool,
    /// The name of the axis (e.g. `Weight`).
    pub name: String,
    /// The axis tag (e.g. `wght`).
    pub tag: String,
}

/// The wire form of an axis: `hidden` only when set.
pub open spec fn axis_model(x: Axis) -> PlistModel {
    PlistModel::Dictionary(
        (if x.hidden {
            seq![("hidden"@, PlistModel::Integer(1))]
        } else {
            Seq::empty()
        }) + seq![("name"@, PlistModel::String(x.name@)), ("tag"@, PlistModel::String(x.tag@))],
    )
}

/// `x` is what decoding `m` as an axis gives.
pub open spec fn axis_decodes(m: PlistModel, x: Axis) -> bool {
    match dict_of(m) {
        Some(d) => {
            &&& bool_field(d, "hidden"@, false) == Some(x.hidden)
            &&& string_field(d, "name"@) == Some(x.name@)
            &&& string_field(d, "tag"@) == Some(x.tag@)
        },
        None => false,
    }
}

pub open spec fn axis_decodable(m: PlistModel) -> bool {
    match dict_of(m) {
        Some(d) => {
            &&& bool_field(d, "hidden"@, false) is Some
            &&& string_field(d, "name"@) is Some
            &&& string_field(d, "tag"@) is Some
        },
        None => false,
    }
}

/// The wire form of a flag: 1 or 0.
fn flag(b: bool) -> (r: Plist)
    ensures
        plist_view(r) == PlistModel::Integer(if b {
            1
        } else {
            0
        }),
{
    Plist::Integer(if b {
        1
    } else {
        0
    })
}

impl Axis {
    pub fn to_plist(&self) -> (r: Plist)
        ensures
            plist_view(r) == axis_model(*self),
    {
        let mut entries: Vec<(String, Plist)> = Vec::new();
        if self.hidden {
            entries.push(entry("hidden", flag(true)));
        }
        entries.push(entry("name", Plist::String(self.name.clone())));
        entries.push(entry("tag", Plist::String(self.tag.clone())));
        proof {
            crate::ser::lemma_entries_view(entries@);
        }
        assert(entries_view(entries@) =~= (if self.hidden {
            seq![("hidden"@, PlistModel::Integer(1))]
        } else {
            Seq::empty()
        }) + seq![("name"@, PlistModel::String(self.name@)), ("tag"@, PlistModel::String(self.tag@))]);
        Plist::Dictionary(entries)
    }

    pub fn from_plist(v: &Plist) -> (r: Result<Axis, DecodeError>)
        ensures
            r is Ok <==> axis_decodable(plist_view(*v)),
            r matches Ok(x) ==> axis_decodes(plist_view(*v), x),
    {
        let entries = record_entries(v)?;
        let hidden = bool_field_of(entries, "hidden", false)?;
        let name = string_field_of(entries, "name")?;
        let tag = string_field_of(entries, "tag")?;
        Ok(Axis { hidden, name, tag })
    }
}

/// Encoding an axis and decoding the result gives the same axis back.
pub proof fn lemma_axis_round_trip(x: Axis)
    ensures
        axis_decodable(axis_model(x)),
        axis_decodes(axis_model(x), x),
{
    reveal_strlit("hidden");
    reveal_strlit("name");
    reveal_strlit("tag");
    let d = dict_of(axis_model(x))->Some_0;
    let o: int = if x.hidden {
        1
    } else {
        0
    };
    assert(d[o].0 == "name"@ && d[o + 1].0 == "tag"@);
    assert("hidden"@ != "name"@ && "hidden"@ != "tag"@ && "name"@ != "tag"@) by {
        assert("hidden"@.len() != "name"@.len());
        assert("hidden"@.len() != "tag"@.len());
        assert("name"@.len() != "tag"@.len());
    }
    lemma_field_at(d, o);
    lemma_field_at(d, o + 1);
    if x.hidden {
        lemma_field_at(d, 0);
    } else {
        lemma_field_absent(d, "hidden"@);
    }
}

/// The version of a font.
#[derive(Debug, Default)]
pub struct Version {
    /// The major version number, under the key `versionMajor`.
    pub major: i32,
    /// The minor version number, under the key `versionMinor`.
    pub minor: i32,
}

pub open spec fn version_model(x: Version) -> PlistModel {
    PlistModel::Dictionary(
        seq![
            ("versionMajor"@, PlistModel::Integer(x.major as int)),
            ("versionMinor"@, PlistModel::Integer(x.minor as int)),
        ],
    )
}

/// Absent numbers are zero.
pub open spec fn version_decodes(m: PlistModel, x: Version) -> bool {
    match dict_of(m) {
        Some(d) => i32_field(d, "versionMajor"@, 0) == Some(x.major) && i32_field(
            d,
            "versionMinor"@,
            0,
        ) == Some(x.minor),
        None => false,
    }
}

pub open spec fn version_decodable(m: PlistModel) -> bool {
    match dict_of(m) {
        Some(d) => i32_field(d, "versionMajor"@, 0) is Some && i32_field(d, "versionMinor"@, 0) is Some,
        None => false,
    }
}

impl Version {
    pub fn to_plist(&self) -> (r: Plist)
        ensures
            plist_view(r) == version_model(*self),
    {
        let mut entries: Vec<(String, Plist)> = Vec::new();
        entries.push(entry("versionMajor", Plist::Integer(self.major as i64)));
        entries.push(entry("versionMinor", Plist::Integer(self.minor as i64)));
        proof {
            crate::ser::lemma_entries_view(entries@);
        }
        assert(entries_view(entries@) =~= dict_of(version_model(*self))->Some_0);
        Plist::Dictionary(entries)
    }

    pub fn from_plist(v: &Plist) -> (r: Result<Version, DecodeError>)
        ensures
            r is Ok <==> version_decodable(plist_view(*v)),
            r matches Ok(x) ==> version_decodes(plist_view(*v), x),
    {
        let entries = record_entries(v)?;
        let major = i32_field_of(entries, "versionMajor", 0)?;
        let minor = i32_field_of(entries, "versionMinor", 0)?;
        Ok(Version { major, minor })
    }
}

/// Encoding a version and decoding the result gives the same version back.
pub proof fn lemma_version_round_trip(x: Version)
    ensures
        version_decodable(version_model(x)),
        version_decodes(version_model(x), x),
{
    reveal_strlit("versionMajor");
    reveal_strlit("versionMinor");
    let d = dict_of(version_model(x))->Some_0;
    assert("versionMajor"@ != "versionMinor"@) by {
        assert("versionMajor"@[8] != "versionMinor"@[8]);
    }
    lemma_field_at(d, 0);
    lemma_field_at(d, 1);
}

/// A label of a stylistic set in one language.
#[derive(Debug, Default)]
pub struct StylisticSetLabel {
    /// The language tag, e.g. `dflt` or `DEU`.
    pub language: String,
    /// The localized label.
    pub value: String,
}

pub open spec fn label_model(x: StylisticSetLabel) -> PlistModel {
    PlistModel::Dictionary(
        seq![("language"@, PlistModel::String(x.language@)), ("value"@, PlistModel::String(x.value@))],
    )
}

pub open spec fn label_decodes(m: PlistModel, x: StylisticSetLabel) -> bool {
    match dict_of(m) {
        Some(d) => string_field(d, "language"@) == Some(x.language@) && string_field(d, "value"@)
            == Some(x.value@),
        None => false,
    }
}

pub open spec fn label_decodable(m: PlistModel) -> bool {
    match dict_of(m) {
        Some(d) => string_field(d, "language"@) is Some && string_field(d, "value"@) is Some,
        None => false,
    }
}

impl StylisticSetLabel {
    pub fn to_plist(&self) -> (r: Plist)
        ensures
            plist_view(r) == label_model(*self),
    {
        let mut entries: Vec<(String, Plist)> = Vec::new();
        entries.push(entry("language", Plist::String(self.language.clone())));
        entries.push(entry("value", Plist::String(self.value.clone())));
        proof {
            crate::ser::lemma_entries_view(entries@);
        }
        assert(entries_view(entries@) =~= dict_of(label_model(*self))->Some_0);
        Plist::Dictionary(entries)
    }

    pub fn from_plist(v: &Plist) -> (r: Result<StylisticSetLabel, DecodeError>)
        ensures
            r is Ok <==> label_decodable(plist_view(*v)),
            r matches Ok(x) ==> label_decodes(plist_view(*v), x),
            r is Err ==> label_error_path(plist_view(*v), r->Err_0.path@),
    {
        let entries = record_entries(v)?;
        let language = string_field_of(entries, "language")?;
        let value = string_field_of(entries, "value")?;
        Ok(StylisticSetLabel { language, value })
    }
}

/// Encoding a label and decoding the result gives the same label back.
pub proof fn lemma_label_round_trip(x: StylisticSetLabel)
    ensures
        label_decodable(label_model(x)),
        label_decodes(label_model(x), x),
{
    reveal_strlit("language");
    reveal_strlit("value");
    let d = dict_of(label_model(x))->Some_0;
    assert("language"@ != "value"@) by {
        assert("language"@.len() != "value"@.len());
    }
    lemma_field_at(d, 0);
    lemma_field_at(d, 1);
}

pub open spec fn labels_decodes(m: PlistModel, xs: Seq<StylisticSetLabel>) -> bool {
    match m {
        PlistModel::Array(items) => items.len() == xs.len() && (forall|i: int|
            0 <= i < items.len() ==> label_decodes(#[trigger] items[i], xs[i])),
        _ => false,
    }
}

pub open spec fn labels_decodable(m: PlistModel) -> bool {
    &&& m is Array
    &&& forall|i: int|
        0 <= i < m->Array_0.len() ==> #[trigger] label_decodable(m->Array_0[i])
}

proof fn lemma_label_blocks(ms: Seq<PlistModel>, i: int)
    requires
        0 <= i < ms.len(),
        !label_decodable(ms[i]),
    ensures
        !labels_decodable(PlistModel::Array(ms)),
{
    let a = PlistModel::Array(ms);
    assert(a->Array_0 == ms);
}

/// Where a text field's error points: nowhere when the field is absent (the
/// record lacks it), at the field when it holds something else.
pub open spec fn text_field_error_path(
    d: Seq<(Seq<char>, PlistModel)>,
    k: Seq<char>,
    p: Seq<PathSegment>,
) -> bool {
    if field(d, k) is None {
        p.len() == 0
    } else {
        p.len() == 1 && is_key(p[0], k)
    }
}

/// The path of a label's decode error: to the first field, `language` then
/// `value`, that is not text.
pub open spec fn label_error_path(m: PlistModel, p: Seq<PathSegment>) -> bool {
    match dict_of(m) {
        None => p.len() == 0,
        Some(d) => if string_field(d, "language"@) is None {
            text_field_error_path(d, "language"@, p)
        } else {
            text_field_error_path(d, "value"@, p)
        },
    }
}

/// The path of a label array's decode error: the index of the first label
/// that fails, then that label's own path.
pub open spec fn labels_error_path(m: PlistModel, p: Seq<PathSegment>) -> bool {
    match m {
        PlistModel::Array(items) => exists|i: int|
            0 <= i < items.len() && (forall|j: int| 0 <= j < i ==> label_decodable(#[trigger] items[j]))
                && !label_decodable(items[i]) && p.len() >= 1 && is_index(p[0], i)
                && label_error_path(items[i], p.drop_first()),
        _ => p.len() == 0,
    }
}

/// Reads an array of labels; a failure names the index of the label.
pub fn labels_from_plist(v: &Plist) -> (r: Result<Vec<StylisticSetLabel>, DecodeError>)
    ensures
        r is Ok <==> labels_decodable(plist_view(*v)),
        r matches Ok(xs) ==> labels_decodes(plist_view(*v), xs@),
        r is Err ==> labels_error_path(plist_view(*v), r->Err_0.path@),
{
    let items = match v {
        Plist::Array(items) => items,
        _ => {
            return Err(DecodeError::new(DecodeErrorKind::TypeMismatch { expected: "array" }));
        },
    };
    proof {
        crate::ser::lemma_items_view(items@);
    }
    let ghost m = items_view(items@);
    let mut out: Vec<StylisticSetLabel> = Vec::new();
    let mut i: usize = 0;
    while i < items.len()
        invariant
            i <= items@.len(),
            m == items_view(items@),
            m.len() == items@.len(),
            forall|j: int| 0 <= j < items@.len() ==> #[trigger] m[j] == plist_view(items@[j]),
            out@.len() == i,
            forall|j: int| 0 <= j < i ==> label_decodes(#[trigger] m[j], out@[j]),
            forall|j: int| 0 <= j < i ==> label_decodable(#[trigger] m[j]),
            plist_view(*v) == PlistModel::Array(m),
        decreases items@.len() - i,
    {
        match StylisticSetLabel::from_plist(&items[i]) {
            Ok(x) => {
                out.push(x);
            },
            Err(e) => {
                assert(!label_decodable(m[i as int]));
                proof {
                    lemma_label_blocks(m, i as int);
                }
                let r = e.within_index(i);
                assert(r.path@.drop_first() =~= r.path@.subrange(1, r.path@.len() as int));
                return Err(r);
            },
        }
        i = i + 1;
    }
    Ok(out)
}

pub open spec fn flag_entry(b: bool, k: Seq<char>) -> Seq<(Seq<char>, PlistModel)> {
    if b {
        seq![(k, PlistModel::Integer(1))]
    } else {
        Seq::empty()
    }
}

pub open spec fn text_entry(o: Option<String>, k: Seq<char>) -> Seq<(Seq<char>, PlistModel)> {
    match o {
        Some(s) => seq![(k, PlistModel::String(s@))],
        None => Seq::empty(),
    }
}

pub open spec fn labels_model(xs: Seq<StylisticSetLabel>) -> Seq<PlistModel> {
    Seq::new(xs.len(), |i: int| label_model(xs[i]))
}

/// An OpenType feature.
#[derive(Debug, Default)]
pub struct Feature {
    /// Whether the code is generated automatically.
    pub automatic: bool,
    /// The feature code, e.g. `sub a by a.alt;`.
    pub code: String,
    /// Whether the feature is disabled.
    pub disabled: bool,
    /// The labels of the feature.
    pub labels: Vec<StylisticSetLabel>,
    /// A comment about the feature.
    pub notes: Option<String>,
    /// The four-letter tag, written under `tag` and also read under `name`.
    pub tag: String,
}

/// Flags are written only when set, labels only when there are some, notes
/// only when present.
pub open spec fn feature_model(x: Feature) -> PlistModel {
    PlistModel::Dictionary(
        flag_entry(x.automatic, "automatic"@) + seq![("code"@, PlistModel::String(x.code@))]
            + flag_entry(x.disabled, "disabled"@) + (if x.labels@.len() > 0 {
            seq![("labels"@, PlistModel::Array(labels_model(x.labels@)))]
        } else {
            Seq::empty()
        }) + text_entry(x.notes, "notes"@) + seq![("tag"@, PlistModel::String(x.tag@))],
    )
}

/// The tag is read under `tag`, or else under its older name `name`.
pub open spec fn tag_field(d: Seq<(Seq<char>, PlistModel)>) -> Option<Seq<char>> {
    if field(d, "tag"@) is Some {
        string_field(d, "tag"@)
    } else {
        string_field(d, "name"@)
    }
}

pub open spec fn feature_decodes(m: PlistModel, x: Feature) -> bool {
    match dict_of(m) {
        Some(d) => {
            &&& bool_field(d, "automatic"@, false) == Some(x.automatic)
            &&& string_field(d, "code"@) == Some(x.code@)
            &&& bool_field(d, "disabled"@, false) == Some(x.disabled)
            &&& match field(d, "labels"@) {
                None => x.labels@.len() == 0,
                Some(lm) => labels_decodes(lm, x.labels@),
            }
            &&& opt_string_field(d, "notes"@) == Some(opt_view(x.notes))
            &&& tag_field(d) == Some(x.tag@)
        },
        None => false,
    }
}

/// The path of a feature's decode error: to the first field, in the order
/// they are read, that cannot be decoded; into the labels array down to the
/// failing field of the failing label.
pub open spec fn feature_error_path(m: PlistModel, p: Seq<PathSegment>) -> bool {
    match dict_of(m) {
        None => p.len() == 0,
        Some(d) => if bool_field(d, "automatic"@, false) is None {
            p.len() == 1 && is_key(p[0], "automatic"@)
        } else if string_field(d, "code"@) is None {
            text_field_error_path(d, "code"@, p)
        } else if bool_field(d, "disabled"@, false) is None {
            p.len() == 1 && is_key(p[0], "disabled"@)
        } else if field(d, "labels"@) is Some && !labels_decodable(field(d, "labels"@)->Some_0) {
            p.len() >= 1 && is_key(p[0], "labels"@) && labels_error_path(
                field(d, "labels"@)->Some_0,
                p.drop_first(),
            )
        } else if opt_string_field(d, "notes"@) is None {
            p.len() == 1 && is_key(p[0], "notes"@)
        } else if field(d, "tag"@) is Some {
            text_field_error_path(d, "tag"@, p)
        } else {
            text_field_error_path(d, "name"@, p)
        },
    }
}

pub open spec fn feature_decodable(m: PlistModel) -> bool {
    match dict_of(m) {
        Some(d) => {
            &&& bool_field(d, "automatic"@, false) is Some
            &&& string_field(d, "code"@) is Some
            &&& bool_field(d, "disabled"@, false) is Some
            &&& match field(d, "labels"@) {
                None => true,
                Some(lm) => labels_decodable(lm),
            }
            &&& opt_string_field(d, "notes"@) is Some
            &&& tag_field(d) is Some
        },
        None => false,
    }
}

fn push_flag(entries: &mut Vec<(String, Plist)>, key: &str, b: bool)
    ensures
        entries_view(final(entries)@) == entries_view(old(entries)@) + flag_entry(b, key@),
{
    proof {
        crate::ser::lemma_entries_view(entries@);
    }
    if b {
        entries.push(entry(key, flag(true)));
        proof {
            crate::ser::lemma_entries_view(entries@);
        }
    }
    assert(entries_view(entries@) =~= entries_view(old(entries)@) + flag_entry(b, key@));
}

fn push_entry(entries: &mut Vec<(String, Plist)>, key: &str, v: Plist)
    ensures
        entries_view(final(entries)@) == entries_view(old(entries)@).push((key@, plist_view(v))),
{
    proof {
        crate::ser::lemma_entries_view(entries@);
    }
    entries.push(entry(key, v));
    proof {
        crate::ser::lemma_entries_view(entries@);
    }
    assert(entries_view(entries@) =~= entries_view(old(entries)@).push((key@, plist_view(v))));
}

fn push_text(entries: &mut Vec<(String, Plist)>, key: &str, o: &Option<String>)
    ensures
        entries_view(final(entries)@) == entries_view(old(entries)@) + text_entry(*o, key@),
{
    match o {
        Some(s) => {
            push_entry(entries, key, Plist::String(s.clone()));
        },
        None => {},
    }
    assert(entries_view(entries@) =~= entries_view(old(entries)@) + text_entry(*o, key@));
}

fn labels_to_plist(xs: &Vec<StylisticSetLabel>) -> (r: Vec<Plist>)
    ensures
        items_view(r@) == labels_model(xs@),
{
    let mut out: Vec<Plist> = Vec::new();
    let mut i: usize = 0;
    while i < xs.len()
        invariant
            i <= xs@.len(),
            out@.len() == i,
            forall|j: int| 0 <= j < i ==> plist_view(#[trigger] out@[j]) == label_model(xs@[j]),
        decreases xs@.len() - i,
    {
        out.push(xs[i].to_plist());
        i = i + 1;
    }
    proof {
        crate::ser::lemma_items_view(out@);
    }
    assert(items_view(out@) =~= labels_model(xs@));
    out
}

impl Feature {
    pub fn to_plist(&self) -> (r: Plist)
        ensures
            plist_view(r) == feature_model(*self),
    {
        let mut entries: Vec<(String, Plist)> = Vec::new();
        assert(entries_view(entries@) =~= Seq::empty());
        push_flag(&mut entries, "automatic", self.automatic);
        push_entry(&mut entries, "code", Plist::String(self.code.clone()));
        push_flag(&mut entries, "disabled", self.disabled);
        let ghost before = entries_view(entries@);
        if self.labels.len() > 0 {
            push_entry(&mut entries, "labels", Plist::Array(labels_to_plist(&self.labels)));
        }
        assert(entries_view(entries@) =~= before + (if self.labels@.len() > 0 {
            seq![("labels"@, PlistModel::Array(labels_model(self.labels@)))]
        } else {
            Seq::empty()
        }));
        push_text(&mut entries, "notes", &self.notes);
        push_entry(&mut entries, "tag", Plist::String(self.tag.clone()));
        assert(entries_view(entries@) =~= dict_of(feature_model(*self))->Some_0);
        Plist::Dictionary(entries)
    }

    pub fn from_plist(v: &Plist) -> (r: Result<Feature, DecodeError>)
        ensures
            r is Ok <==> feature_decodable(plist_view(*v)),
            r matches Ok(x) ==> feature_decodes(plist_view(*v), x),
            r is Err ==> feature_error_path(plist_view(*v), r->Err_0.path@),
    {
        let entries = record_entries(v)?;
        let automatic = bool_field_of(entries, "automatic", false)?;
        let code = string_field_of(entries, "code")?;
        let disabled = bool_field_of(entries, "disabled", false)?;
        let labels = match lookup(entries, "labels") {
            None => Vec::new(),
            Some(lv) => match labels_from_plist(lv) {
                Ok(xs) => xs,
                Err(e) => {
                    let r = e.within_key("labels");
                    assert(r.path@.drop_first() =~= r.path@.subrange(1, r.path@.len() as int));
                    return Err(r);
                },
            },
        };
        let notes = opt_string_field_of(entries, "notes")?;
        let tag = match lookup(entries, "tag") {
            Some(_) => string_field_of(entries, "tag")?,
            None => string_field_of(entries, "name")?,
        };
        Ok(Feature { automatic, code, disabled, labels, notes, tag })
    }
}

/// A stem of a font, horizontal or vertical.
#[derive(Debug, Default)]
pub struct Stem {
    pub name: String,
    pub horizontal: bool,
}

pub open spec fn stem_model(x: Stem) -> PlistModel {
    PlistModel::Dictionary(
        seq![
            ("name"@, PlistModel::String(x.name@)),
            ("horizontal"@, PlistModel::Integer(if x.horizontal {
                1
            } else {
                0
            })),
        ],
    )
}

pub open spec fn stem_decodes(m: PlistModel, x: Stem) -> bool {
    match dict_of(m) {
        Some(d) => string_field(d, "name"@) == Some(x.name@) && bool_field(d, "horizontal"@, false)
            == Some(x.horizontal),
        None => false,
    }
}

pub open spec fn stem_decodable(m: PlistModel) -> bool {
    match dict_of(m) {
        Some(d) => string_field(d, "name"@) is Some && bool_field(d, "horizontal"@, false) is Some,
        None => false,
    }
}

impl Stem {
    pub fn to_plist(&self) -> (r: Plist)
        ensures
            plist_view(r) == stem_model(*self),
    {
        let mut entries: Vec<(String, Plist)> = Vec::new();
        assert(entries_view(entries@) =~= Seq::empty());
        push_entry(&mut entries, "name", Plist::String(self.name.clone()));
        push_entry(&mut entries, "horizontal", flag(self.horizontal));
        assert(entries_view(entries@) =~= dict_of(stem_model(*self))->Some_0);
        Plist::Dictionary(entries)
    }

    pub fn from_plist(v: &Plist) -> (r: Result<Stem, DecodeError>)
        ensures
            r is Ok <==> stem_decodable(plist_view(*v)),
            r matches Ok(x) ==> stem_decodes(plist_view(*v), x),
    {
        let entries = record_entries(v)?;
        let name = string_field_of(entries, "name")?;
        let horizontal = bool_field_of(entries, "horizontal", false)?;
        Ok(Stem { name, horizontal })
    }
}

/// A named number of a font.
#[derive(Debug, Default)]
pub struct Number {
    pub name: String,
}

pub open spec fn number_model(x: Number) -> PlistModel {
    PlistModel::Dictionary(seq![("name"@, PlistModel::String(x.name@))])
}

impl Number {
    pub fn to_plist(&self) -> (r: Plist)
        ensures
            plist_view(r) == number_model(*self),
    {
        let mut entries: Vec<(String, Plist)> = Vec::new();
        assert(entries_view(entries@) =~= Seq::empty());
        push_entry(&mut entries, "name", Plist::String(self.name.clone()));
        assert(entries_view(entries@) =~= dict_of(number_model(*self))->Some_0);
        Plist::Dictionary(entries)
    }

    pub fn from_plist(v: &Plist) -> (r: Result<Number, DecodeError>)
        ensures
            r is Ok <==> (dict_of(plist_view(*v)) is Some && string_field(
                dict_of(plist_view(*v))->Some_0,
                "name"@,
            ) is Some),
            r matches Ok(x) ==> string_field(dict_of(plist_view(*v))->Some_0, "name"@) == Some(
                x.name@,
            ),
    {
        let entries = record_entries(v)?;
        let name = string_field_of(entries, "name")?;
        Ok(Number { name })
    }
}

/// A text in one language.
#[derive(Debug, Default)]
pub struct LocalizedValue {
    pub language: String,
    pub value: String,
}

pub open spec fn localized_value_model(x: LocalizedValue) -> PlistModel {
    PlistModel::Dictionary(
        seq![("language"@, PlistModel::String(x.language@)), ("value"@, PlistModel::String(x.value@))],
    )
}

pub open spec fn localized_value_decodes(m: PlistModel, x: LocalizedValue) -> bool {
    match dict_of(m) {
        Some(d) => string_field(d, "language"@) == Some(x.language@) && string_field(d, "value"@)
            == Some(x.value@),
        None => false,
    }
}

impl LocalizedValue {
    pub fn to_plist(&self) -> (r: Plist)
        ensures
            plist_view(r) == localized_value_model(*self),
    {
        let mut entries: Vec<(String, Plist)> = Vec::new();
        assert(entries_view(entries@) =~= Seq::empty());
        push_entry(&mut entries, "language", Plist::String(self.language.clone()));
        push_entry(&mut entries, "value", Plist::String(self.value.clone()));
        assert(entries_view(entries@) =~= dict_of(localized_value_model(*self))->Some_0);
        Plist::Dictionary(entries)
    }

    pub fn from_plist(v: &Plist) -> (r: Result<LocalizedValue, DecodeError>)
        ensures
            r is Ok <==> label_decodable(plist_view(*v)),
            r matches Ok(x) ==> localized_value_decodes(plist_view(*v), x),
    {
        let entries = record_entries(v)?;
        let language = string_field_of(entries, "language")?;
        let value = string_field_of(entries, "value")?;
        Ok(LocalizedValue { language, value })
    }
}

/// A setting of a smart component.
#[derive(Debug, Default)]
pub struct SmartComponentSetting {
    /// Written under `bottomValue`.
    pub bottom_value: i32,
    /// Written under `topValue`.
    pub top_value: i32,
    pub name: String,
}

pub open spec fn smart_setting_model(x: SmartComponentSetting) -> PlistModel {
    PlistModel::Dictionary(
        seq![
            ("bottomValue"@, PlistModel::Integer(x.bottom_value as int)),
            ("topValue"@, PlistModel::Integer(x.top_value as int)),
            ("name"@, PlistModel::String(x.name@)),
        ],
    )
}

pub open spec fn smart_setting_decodes(m: PlistModel, x: SmartComponentSetting) -> bool {
    match dict_of(m) {
        Some(d) => i32_field(d, "bottomValue"@, 0) == Some(x.bottom_value) && i32_field(
            d,
            "topValue"@,
            0,
        ) == Some(x.top_value) && string_field(d, "name"@) == Some(x.name@),
        None => false,
    }
}

pub open spec fn smart_setting_decodable(m: PlistModel) -> bool {
    match dict_of(m) {
        Some(d) => i32_field(d, "bottomValue"@, 0) is Some && i32_field(d, "topValue"@, 0) is Some
            && string_field(d, "name"@) is Some,
        None => false,
    }
}

impl SmartComponentSetting {
    pub fn to_plist(&self) -> (r: Plist)
        ensures
            plist_view(r) == smart_setting_model(*self),
    {
        let mut entries: Vec<(String, Plist)> = Vec::new();
        assert(entries_view(entries@) =~= Seq::empty());
        push_entry(&mut entries, "bottomValue", Plist::Integer(self.bottom_value as i64));
        push_entry(&mut entries, "topValue", Plist::Integer(self.top_value as i64));
        push_entry(&mut entries, "name", Plist::String(self.name.clone()));
        assert(entries_view(entries@) =~= dict_of(smart_setting_model(*self))->Some_0);
        Plist::Dictionary(entries)
    }

    pub fn from_plist(v: &Plist) -> (r: Result<SmartComponentSetting, DecodeError>)
        ensures
            r is Ok <==> smart_setting_decodable(plist_view(*v)),
            r matches Ok(x) ==> smart_setting_decodes(plist_view(*v), x),
    {
        let entries = record_entries(v)?;
        let bottom_value = i32_field_of(entries, "bottomValue", 0)?;
        let top_value = i32_field_of(entries, "topValue", 0)?;
        let name = string_field_of(entries, "name")?;
        Ok(SmartComponentSetting { bottom_value, top_value, name })
    }
}

/// A prefix of the feature code (`languagesystem` statements and the like).
#[derive(Debug, Default)]
pub struct FeaturePrefix {
    pub automatic: bool,
    pub code: String,
    /// Written under `name` and also read under `tag`.
    pub name: String,
    pub disabled: bool,
    pub notes: Option<String>,
}

pub open spec fn feature_prefix_model(x: FeaturePrefix) -> PlistModel {
    PlistModel::Dictionary(
        flag_entry(x.automatic, "automatic"@) + seq![
            ("code"@, PlistModel::String(x.code@)),
            ("name"@, PlistModel::String(x.name@)),
        ] + flag_entry(x.disabled, "disabled"@) + text_entry(x.notes, "notes"@),
    )
}

/// The name is read under `name`, or else under `tag`.
pub open spec fn prefix_name_field(d: Seq<(Seq<char>, PlistModel)>) -> Option<Seq<char>> {
    if field(d, "name"@) is Some {
        string_field(d, "name"@)
    } else {
        string_field(d, "tag"@)
    }
}

pub open spec fn feature_prefix_decodes(m: PlistModel, x: FeaturePrefix) -> bool {
    match dict_of(m) {
        Some(d) => {
            &&& bool_field(d, "automatic"@, false) == Some(x.automatic)
            &&& string_field(d, "code"@) == Some(x.code@)
            &&& prefix_name_field(d) == Some(x.name@)
            &&& bool_field(d, "disabled"@, false) == Some(x.disabled)
            &&& opt_string_field(d, "notes"@) == Some(opt_view(x.notes))
        },
        None => false,
    }
}

pub open spec fn feature_prefix_decodable(m: PlistModel) -> bool {
    match dict_of(m) {
        Some(d) => {
            &&& bool_field(d, "automatic"@, false) is Some
            &&& string_field(d, "code"@) is Some
            &&& prefix_name_field(d) is Some
            &&& bool_field(d, "disabled"@, false) is Some
            &&& opt_string_field(d, "notes"@) is Some
        },
        None => false,
    }
}

impl FeaturePrefix {
    pub fn to_plist(&self) -> (r: Plist)
        ensures
            plist_view(r) == feature_prefix_model(*self),
    {
        let mut entries: Vec<(String, Plist)> = Vec::new();
        assert(entries_view(entries@) =~= Seq::empty());
        push_flag(&mut entries, "automatic", self.automatic);
        push_entry(&mut entries, "code", Plist::String(self.code.clone()));
        push_entry(&mut entries, "name", Plist::String(self.name.clone()));
        push_flag(&mut entries, "disabled", self.disabled);
        push_text(&mut entries, "notes", &self.notes);
        assert(entries_view(entries@) =~= dict_of(feature_prefix_model(*self))->Some_0);
        Plist::Dictionary(entries)
    }

    pub fn from_plist(v: &Plist) -> (r: Result<FeaturePrefix, DecodeError>)
        ensures
            r is Ok <==> feature_prefix_decodable(plist_view(*v)),
            r matches Ok(x) ==> feature_prefix_decodes(plist_view(*v), x),
    {
        let entries = record_entries(v)?;
        let automatic = bool_field_of(entries, "automatic", false)?;
        let code = string_field_of(entries, "code")?;
        let name = match lookup(entries, "name") {
            Some(_) => string_field_of(entries, "name")?,
            None => string_field_of(entries, "tag")?,
        };
        let disabled = bool_field_of(entries, "disabled", false)?;
        let notes = opt_string_field_of(entries, "notes")?;
        Ok(FeaturePrefix { automatic, code, name, disabled, notes })
    }
}

/// A class of glyphs for the feature code.
#[derive(Debug, Default)]
pub struct FeatureClass {
    pub automatic: bool,
    pub code: String,
    /// The name, without the leading `@`.
    pub name: String,
    pub disabled: bool,
    pub notes: Option<String>,
}

pub open spec fn feature_class_model(x: FeatureClass) -> PlistModel {
    PlistModel::Dictionary(
        flag_entry(x.automatic, "automatic"@) + seq![
            ("code"@, PlistModel::String(x.code@)),
            ("name"@, PlistModel::String(x.name@)),
        ] + flag_entry(x.disabled, "disabled"@) + text_entry(x.notes, "notes"@),
    )
}

pub open spec fn feature_class_decodes(m: PlistModel, x: FeatureClass) -> bool {
    match dict_of(m) {
        Some(d) => {
            &&& bool_field(d, "automatic"@, false) == Some(x.automatic)
            &&& string_field(d, "code"@) == Some(x.code@)
            &&& string_field(d, "name"@) == Some(x.name@)
            &&& bool_field(d, "disabled"@, false) == Some(x.disabled)
            &&& opt_string_field(d, "notes"@) == Some(opt_view(x.notes))
        },
        None => false,
    }
}

pub open spec fn feature_class_decodable(m: PlistModel) -> bool {
    match dict_of(m) {
        Some(d) => {
            &&& bool_field(d, "automatic"@, false) is Some
            &&& string_field(d, "code"@) is Some
            &&& string_field(d, "name"@) is Some
            &&& bool_field(d, "disabled"@, false) is Some
            &&& opt_string_field(d, "notes"@) is Some
        },
        None => false,
    }
}

impl FeatureClass {
    pub fn to_plist(&self) -> (r: Plist)
        ensures
            plist_view(r) == feature_class_model(*self),
    {
        let mut entries: Vec<(String, Plist)> = Vec::new();
        assert(entries_view(entries@) =~= Seq::empty());
        push_flag(&mut entries, "automatic", self.automatic);
        push_entry(&mut entries, "code", Plist::String(self.code.clone()));
        push_entry(&mut entries, "name", Plist::String(self.name.clone()));
        push_flag(&mut entries, "disabled", self.disabled);
        push_text(&mut entries, "notes", &self.notes);
        assert(entries_view(entries@) =~= dict_of(feature_class_model(*self))->Some_0);
        Plist::Dictionary(entries)
    }

    pub fn from_plist(v: &Plist) -> (r: Result<FeatureClass, DecodeError>)
        ensures
            r is Ok <==> feature_class_decodable(plist_view(*v)),
            r matches Ok(x) ==> feature_class_decodes(plist_view(*v), x),
    {
        let entries = record_entries(v)?;
        let automatic = bool_field_of(entries, "automatic", false)?;
        let code = string_field_of(entries, "code")?;
        let name = string_field_of(entries, "name")?;
        let disabled = bool_field_of(entries, "disabled", false)?;
        let notes = opt_string_field_of(entries, "notes")?;
        Ok(FeatureClass { automatic, code, name, disabled, notes })
    }
}

/// A custom parameter: a name and a value of any shape.
#[derive(Debug)]
pub struct CustomParameter {
    pub name: String,
    pub value: Plist,
    pub disabled: bool,
}

pub open spec fn custom_parameter_model(x: CustomParameter) -> PlistModel {
    PlistModel::Dictionary(
        seq![("name"@, PlistModel::String(x.name@)), ("value"@, plist_view(x.value))] + flag_entry(
            x.disabled,
            "disabled"@,
        ),
    )
}

pub open spec fn custom_parameter_decodes(m: PlistModel, x: CustomParameter) -> bool {
    match dict_of(m) {
        Some(d) => {
            &&& string_field(d, "name"@) == Some(x.name@)
            &&& field(d, "value"@) == Some(plist_view(x.value))
            &&& bool_field(d, "disabled"@, false) == Some(x.disabled)
        },
        None => false,
    }
}

pub open spec fn custom_parameter_decodable(m: PlistModel) -> bool {
    match dict_of(m) {
        Some(d) => {
            &&& string_field(d, "name"@) is Some
            &&& field(d, "value"@) is Some
            &&& bool_field(d, "disabled"@, false) is Some
        },
        None => false,
    }
}

impl CustomParameter {
    pub fn to_plist(&self) -> (r: Plist)
        ensures
            plist_view(r) == custom_parameter_model(*self),
    {
        let mut entries: Vec<(String, Plist)> = Vec::new();
        assert(entries_view(entries@) =~= Seq::empty());
        push_entry(&mut entries, "name", Plist::String(self.name.clone()));
        push_entry(&mut entries, "value", self.value.deep_clone());
        push_flag(&mut entries, "disabled", self.disabled);
        assert(entries_view(entries@) =~= dict_of(custom_parameter_model(*self))->Some_0);
        Plist::Dictionary(entries)
    }

    pub fn from_plist(v: &Plist) -> (r: Result<CustomParameter, DecodeError>)
        ensures
            r is Ok <==> custom_parameter_decodable(plist_view(*v)),
            r matches Ok(x) ==> custom_parameter_decodes(plist_view(*v), x),
    {
        let entries = record_entries(v)?;
        let name = string_field_of(entries, "name")?;
        let value = match lookup(entries, "value") {
            Some(p) => p.deep_clone(),
            None => {
                return Err(DecodeError::new(DecodeErrorKind::MissingField { field: "value" }));
            },
        };
        let disabled = bool_field_of(entries, "disabled", false)?;
        Ok(CustomParameter { name, value, disabled })
    }
}

/// Encoding a stem and decoding the result gives the same stem back.
pub proof fn lemma_stem_round_trip(x: Stem)
    ensures
        stem_decodable(stem_model(x)),
        stem_decodes(stem_model(x), x),
{
    reveal_strlit("name");
    reveal_strlit("horizontal");
    let d = dict_of(stem_model(x))->Some_0;
    assert("name"@ != "horizontal"@) by {
        assert("name"@.len() != "horizontal"@.len());
    }
    lemma_field_at(d, 0);
    lemma_field_at(d, 1);
}

proof fn lemma_piece(p: Seq<(Seq<char>, PlistModel)>, k: Seq<char>)
    requires
        p.len() <= 1,
    ensures
        p.len() == 0 ==> field(p, k) is None,
        p.len() == 1 ==> field(p, k) == if p[0].0 == k {
            Some(p[0].1)
        } else {
            None::<PlistModel>
        },
{
    if p.len() == 1 {
        assert(p == seq![(p[0].0, p[0].1)]);
        lemma_field_single(p[0].0, p[0].1, k);
    }
}

pub open spec fn labels_piece(x: Feature) -> Seq<(Seq<char>, PlistModel)> {
    if x.labels@.len() > 0 {
        seq![("labels"@, PlistModel::Array(labels_model(x.labels@)))]
    } else {
        Seq::empty()
    }
}

/// Looking a key up in an encoded feature: the last piece that holds it.
proof fn lemma_feature_field(x: Feature, k: Seq<char>)
    ensures
        ({
            let a = flag_entry(x.automatic, "automatic"@);
            let b = seq![("code"@, PlistModel::String(x.code@))];
            let c = flag_entry(x.disabled, "disabled"@);
            let d = labels_piece(x);
            let f = text_entry(x.notes, "notes"@);
            let g = seq![("tag"@, PlistModel::String(x.tag@))];
            field(dict_of(feature_model(x))->Some_0, k) == if field(g, k) is Some {
                field(g, k)
            } else if field(f, k) is Some {
                field(f, k)
            } else if field(d, k) is Some {
                field(d, k)
            } else if field(c, k) is Some {
                field(c, k)
            } else if field(b, k) is Some {
                field(b, k)
            } else {
                field(a, k)
            }
        }),
{
    let a = flag_entry(x.automatic, "automatic"@);
    let b = seq![("code"@, PlistModel::String(x.code@))];
    let c = flag_entry(x.disabled, "disabled"@);
    let d = labels_piece(x);
    let f = text_entry(x.notes, "notes"@);
    let g = seq![("tag"@, PlistModel::String(x.tag@))];
    assert(dict_of(feature_model(x))->Some_0 == a + b + c + d + f + g);
    lemma_field_concat(a + b + c + d + f, g, k);
    lemma_field_concat(a + b + c + d, f, k);
    lemma_field_concat(a + b + c, d, k);
    lemma_field_concat(a + b, c, k);
    lemma_field_concat(a, b, k);
}

/// Encoding a feature and decoding the result gives the same feature back:
/// flags, labels and notes that were left out come back as their defaults.
pub proof fn lemma_feature_round_trip(x: Feature)
    ensures
        feature_decodable(feature_model(x)),
        feature_decodes(feature_model(x), x),
{
    reveal_strlit("automatic");
    reveal_strlit("code");
    reveal_strlit("disabled");
    reveal_strlit("labels");
    reveal_strlit("notes");
    reveal_strlit("tag");
    reveal_strlit("name");
    let a = flag_entry(x.automatic, "automatic"@);
    let b = seq![("code"@, PlistModel::String(x.code@))];
    let c = flag_entry(x.disabled, "disabled"@);
    let d = labels_piece(x);
    let f = text_entry(x.notes, "notes"@);
    let g = seq![("tag"@, PlistModel::String(x.tag@))];
    let keys = seq!["automatic"@, "code"@, "disabled"@, "labels"@, "notes"@, "tag"@, "name"@];
    assert("code"@[0] != "name"@[0]);
    assert forall|i: int, j: int| 0 <= i < j < 7 implies #[trigger] keys[i] != #[trigger] keys[j] by {
        if !(i == 1 && j == 6) {
            assert(keys[i].len() != keys[j].len());
        }
    }
    assert forall|i: int| 0 <= i < 7 implies {
        &&& #[trigger] field(a, keys[i]) == if i == 0 && x.automatic {
            Some(PlistModel::Integer(1))
        } else {
            None
        }
        &&& field(b, keys[i]) == if i == 1 {
            Some(PlistModel::String(x.code@))
        } else {
            None
        }
        &&& field(c, keys[i]) == if i == 2 && x.disabled {
            Some(PlistModel::Integer(1))
        } else {
            None
        }
        &&& field(d, keys[i]) == if i == 3 && x.labels@.len() > 0 {
            Some(PlistModel::Array(labels_model(x.labels@)))
        } else {
            None
        }
        &&& field(f, keys[i]) == if i == 4 && x.notes is Some {
            Some(PlistModel::String(x.notes->Some_0@))
        } else {
            None
        }
        &&& field(g, keys[i]) == if i == 5 {
            Some(PlistModel::String(x.tag@))
        } else {
            None
        }
    } by {
        lemma_piece(a, keys[i]);
        lemma_piece(b, keys[i]);
        lemma_piece(c, keys[i]);
        lemma_piece(d, keys[i]);
        lemma_piece(f, keys[i]);
        lemma_piece(g, keys[i]);
    }
    assert(keys[0] == "automatic"@ && keys[1] == "code"@ && keys[2] == "disabled"@ && keys[3]
        == "labels"@ && keys[4] == "notes"@ && keys[5] == "tag"@);
    lemma_feature_field(x, "automatic"@);
    lemma_feature_field(x, "code"@);
    lemma_feature_field(x, "disabled"@);
    lemma_feature_field(x, "labels"@);
    lemma_feature_field(x, "notes"@);
    lemma_feature_field(x, "tag"@);
    let ms = labels_model(x.labels@);
    assert forall|i: int| 0 <= i < ms.len() implies label_decodes(#[trigger] ms[i], x.labels@[i])
        && label_decodable(ms[i]) by {
        lemma_label_round_trip(x.labels@[i]);
    }
}

} // verus!
