use vstd::prelude::*;

use crate::bridge::{names_unknown, DecodeError, DecodeErrorKind};
use crate::text::text_is;
use crate::value::{plist_view, Plist, PlistModel};

verus! {

/// The alignment of a guide.
#[derive(Debug, Clone, Copy, PartialEq, Eq, Structural)]
pub enum Orientation {
    /// Written `left`.
    Left,
    /// Written `center`.
    Center,
    /// Written `right`.
    Right,
}

pub open spec fn orientation_name(x: Orientation) -> Seq<char> {
    match x {
        Orientation::Left => "left"@,
        Orientation::Center => "center"@,
        Orientation::Right => "right"@,
    }
}

impl Orientation {
    /// The wire name.
    pub fn name(&self) -> (r: &'static str)
        ensures
            r@ == orientation_name(*self),
    {
        match self {
            Orientation::Left => "left",
            Orientation::Center => "center",
            Orientation::Right => "right",
        }
    }

    pub fn to_plist(&self) -> (r: Plist)
        ensures
            plist_view(r) == PlistModel::String(orientation_name(*self)),
    {
        Plist::String(String::from_str(self.name()))
    }

    /// The variant that `s` names, if any.
    pub fn from_name(s: &String) -> (r: Option<Orientation>)
        ensures
            r matches Some(x) ==> orientation_name(x) == s@,
            r is None ==> forall|x: Orientation| orientation_name(x) != s@,
    {
        if text_is(s, "left") {
            return Some(Orientation::Left);
        }
        if text_is(s, "center") {
            return Some(Orientation::Center);
        }
        if text_is(s, "right") {
            return Some(Orientation::Right);
        }
        assert forall|x: Orientation| orientation_name(x) != s@ by {
            match x {
                Orientation::Left => {},
                Orientation::Center => {},
                Orientation::Right => {},
            }
        }
        None
    }

    pub fn from_plist(v: &Plist) -> (r: Result<Orientation, DecodeError>)
        ensures
            r matches Ok(x) ==> plist_view(*v) == PlistModel::String(orientation_name(x)),
            r is Err ==> forall|x: Orientation| plist_view(*v) != PlistModel::String(orientation_name(x)),
            r is Err && plist_view(*v) is String ==> names_unknown(
                r->Err_0,
                plist_view(*v)->String_0,
            ),
    {
        match v {
            Plist::String(s) => match Orientation::from_name(s) {
                Some(x) => Ok(x),
                None => Err(DecodeError::new(DecodeErrorKind::UnknownVariant { found: s.clone() })),
            },
            _ => Err(DecodeError::new(DecodeErrorKind::TypeMismatch { expected: "string" })),
        }
    }
}
/// The kind of a path node.
#[derive(Debug, Clone, Copy, PartialEq, Eq, Structural)]
pub enum NodeType {
    /// Written `l`.
    Line,
    /// Written `c`.
    Curve,
    /// Written `q`.
    QCurve,
    /// Written `o`.
    OffCurve,
    /// Written `ls`.
    LineSmooth,
    /// Written `cs`.
    CurveSmooth,
    /// Written `qs`.
    QCurveSmooth,
}

pub open spec fn node_type_name(x: NodeType) -> Seq<char> {
    match x {
        NodeType::Line => "l"@,
        NodeType::Curve => "c"@,
        NodeType::QCurve => "q"@,
        NodeType::OffCurve => "o"@,
        NodeType::LineSmooth => "ls"@,
        NodeType::CurveSmooth => "cs"@,
        NodeType::QCurveSmooth => "qs"@,
    }
}

impl NodeType {
    /// The wire name.
    pub fn name(&self) -> (r: &'static str)
        ensures
            r@ == node_type_name(*self),
    {
        match self {
            NodeType::Line => "l",
            NodeType::Curve => "c",
            NodeType::QCurve => "q",
            NodeType::OffCurve => "o",
            NodeType::LineSmooth => "ls",
            NodeType::CurveSmooth => "cs",
            NodeType::QCurveSmooth => "qs",
        }
    }

    pub fn to_plist(&self) -> (r: Plist)
        ensures
            plist_view(r) == PlistModel::String(node_type_name(*self)),
    {
        Plist::String(String::from_str(self.name()))
    }

    /// The variant that `s` names, if any.
    pub fn from_name(s: &String) -> (r: Option<NodeType>)
        ensures
            r matches Some(x) ==> node_type_name(x) == s@,
            r is None ==> forall|x: NodeType| node_type_name(x) != s@,
    {
        if text_is(s, "l") {
            return Some(NodeType::Line);
        }
        if text_is(s, "c") {
            return Some(NodeType::Curve);
        }
        if text_is(s, "q") {
            return Some(NodeType::QCurve);
        }
        if text_is(s, "o") {
            return Some(NodeType::OffCurve);
        }
        if text_is(s, "ls") {
            return Some(NodeType::LineSmooth);
        }
        if text_is(s, "cs") {
            return Some(NodeType::CurveSmooth);
        }
        if text_is(s, "qs") {
            return Some(NodeType::QCurveSmooth);
        }
        assert forall|x: NodeType| node_type_name(x) != s@ by {
            match x {
                NodeType::Line => {},
                NodeType::Curve => {},
                NodeType::QCurve => {},
                NodeType::OffCurve => {},
                NodeType::LineSmooth => {},
                NodeType::CurveSmooth => {},
                NodeType::QCurveSmooth => {},
            }
        }
        None
    }

    pub fn from_plist(v: &Plist) -> (r: Result<NodeType, DecodeError>)
        ensures
            r matches Ok(x) ==> plist_view(*v) == PlistModel::String(node_type_name(x)),
            r is Err ==> forall|x: NodeType| plist_view(*v) != PlistModel::String(node_type_name(x)),
            r is Err && plist_view(*v) is String ==> names_unknown(
                r->Err_0,
                plist_view(*v)->String_0,
            ),
    {
        match v {
            Plist::String(s) => match NodeType::from_name(s) {
                Some(x) => Ok(x),
                None => Err(DecodeError::new(DecodeErrorKind::UnknownVariant { found: s.clone() })),
            },
            _ => Err(DecodeError::new(DecodeErrorKind::TypeMismatch { expected: "string" })),
        }
    }
}
/// What a font metric measures.
#[derive(Debug, Clone, Copy, PartialEq, Eq, Structural)]
pub enum MetricType {
    /// Written `ascender`.
    Ascender,
    /// Written `cap height`.
    CapHeight,
    /// Written `slant height`.
    SlantHeight,
    /// Written `x-height`.
    XHeight,
    /// Written `midHeight`.
    MidHeight,
    /// Written `topHeight`.
    TopHeight,
    /// Written `bodyHeight`.
    BodyHeight,
    /// Written `descender`.
    Descender,
    /// Written `baseline`.
    Baseline,
    /// Written `italic angle`.
    ItalicAngle,
}

pub open spec fn metric_type_name(x: MetricType) -> Seq<char> {
    match x {
        MetricType::Ascender => "ascender"@,
        MetricType::CapHeight => "cap height"@,
        MetricType::SlantHeight => "slant height"@,
        MetricType::XHeight => "x-height"@,
        MetricType::MidHeight => "midHeight"@,
        MetricType::TopHeight => "topHeight"@,
        MetricType::BodyHeight => "bodyHeight"@,
        MetricType::Descender => "descender"@,
        MetricType::Baseline => "baseline"@,
        MetricType::ItalicAngle => "italic angle"@,
    }
}

impl MetricType {
    /// The wire name.
    pub fn name(&self) -> (r: &'static str)
        ensures
            r@ == metric_type_name(*self),
    {
        match self {
            MetricType::Ascender => "ascender",
            MetricType::CapHeight => "cap height",
            MetricType::SlantHeight => "slant height",
            MetricType::XHeight => "x-height",
            MetricType::MidHeight => "midHeight",
            MetricType::TopHeight => "topHeight",
            MetricType::BodyHeight => "bodyHeight",
            MetricType::Descender => "descender",
            MetricType::Baseline => "baseline",
            MetricType::ItalicAngle => "italic angle",
        }
    }

    pub fn to_plist(&self) -> (r: Plist)
        ensures
            plist_view(r) == PlistModel::String(metric_type_name(*self)),
    {
        Plist::String(String::from_str(self.name()))
    }

    /// The variant that `s` names, if any.
    pub fn from_name(s: &String) -> (r: Option<MetricType>)
        ensures
            r matches Some(x) ==> metric_type_name(x) == s@,
            r is None ==> forall|x: MetricType| metric_type_name(x) != s@,
    {
        if text_is(s, "ascender") {
            return Some(MetricType::Ascender);
        }
        if text_is(s, "cap height") {
            return Some(MetricType::CapHeight);
        }
        if text_is(s, "slant height") {
            return Some(MetricType::SlantHeight);
        }
        if text_is(s, "x-height") {
            return Some(MetricType::XHeight);
        }
        if text_is(s, "midHeight") {
            return Some(MetricType::MidHeight);
        }
        if text_is(s, "topHeight") {
            return Some(MetricType::TopHeight);
        }
        if text_is(s, "bodyHeight") {
            return Some(MetricType::BodyHeight);
        }
        if text_is(s, "descender") {
            return Some(MetricType::Descender);
        }
        if text_is(s, "baseline") {
            return Some(MetricType::Baseline);
        }
        if text_is(s, "italic angle") {
            return Some(MetricType::ItalicAngle);
        }
        assert forall|x: MetricType| metric_type_name(x) != s@ by {
            match x {
                MetricType::Ascender => {},
                MetricType::CapHeight => {},
                MetricType::SlantHeight => {},
                MetricType::XHeight => {},
                MetricType::MidHeight => {},
                MetricType::TopHeight => {},
                MetricType::BodyHeight => {},
                MetricType::Descender => {},
                MetricType::Baseline => {},
                MetricType::ItalicAngle => {},
            }
        }
        None
    }

    pub fn from_plist(v: &Plist) -> (r: Result<MetricType, DecodeError>)
        ensures
            r matches Ok(x) ==> plist_view(*v) == PlistModel::String(metric_type_name(x)),
            r is Err ==> forall|x: MetricType| plist_view(*v) != PlistModel::String(metric_type_name(x)),
            r is Err && plist_view(*v) is String ==> names_unknown(
                r->Err_0,
                plist_view(*v)->String_0,
            ),
    {
        match v {
            Plist::String(s) => match MetricType::from_name(s) {
                Some(x) => Ok(x),
                None => Err(DecodeError::new(DecodeErrorKind::UnknownVariant { found: s.clone() })),
            },
            _ => Err(DecodeError::new(DecodeErrorKind::TypeMismatch { expected: "string" })),
        }
    }
}
/// How an instance is exported.
#[derive(Debug, Clone, Copy, PartialEq, Eq, Structural)]
pub enum ExportType {
    /// Written `static`.
    Static,
    /// Written `variable`.
    Variable,
}

pub open spec fn export_type_name(x: ExportType) -> Seq<char> {
    match x {
        ExportType::Static => "static"@,
        ExportType::Variable => "variable"@,
    }
}

impl ExportType {
    /// The wire name.
    pub fn name(&self) -> (r: &'static str)
        ensures
            r@ == export_type_name(*self),
    {
        match self {
            ExportType::Static => "static",
            ExportType::Variable => "variable",
        }
    }

    pub fn to_plist(&self) -> (r: Plist)
        ensures
            plist_view(r) == PlistModel::String(export_type_name(*self)),
    {
        Plist::String(String::from_str(self.name()))
    }

    /// The variant that `s` names, if any.
    pub fn from_name(s: &String) -> (r: Option<ExportType>)
        ensures
            r matches Some(x) ==> export_type_name(x) == s@,
            r is None ==> forall|x: ExportType| export_type_name(x) != s@,
    {
        if text_is(s, "static") {
            return Some(ExportType::Static);
        }
        if text_is(s, "variable") {
            return Some(ExportType::Variable);
        }
        assert forall|x: ExportType| export_type_name(x) != s@ by {
            match x {
                ExportType::Static => {},
                ExportType::Variable => {},
            }
        }
        None
    }

    pub fn from_plist(v: &Plist) -> (r: Result<ExportType, DecodeError>)
        ensures
            r matches Ok(x) ==> plist_view(*v) == PlistModel::String(export_type_name(x)),
            r is Err ==> forall|x: ExportType| plist_view(*v) != PlistModel::String(export_type_name(x)),
            r is Err && plist_view(*v) is String ==> names_unknown(
                r->Err_0,
                plist_view(*v)->String_0,
            ),
    {
        match v {
            Plist::String(s) => match ExportType::from_name(s) {
                Some(x) => Ok(x),
                None => Err(DecodeError::new(DecodeErrorKind::UnknownVariant { found: s.clone() })),
            },
            _ => Err(DecodeError::new(DecodeErrorKind::TypeMismatch { expected: "string" })),
        }
    }
}
/// The key of a font property that has a value per language.
#[derive(Debug, Clone, Copy, PartialEq, Eq, Structural)]
pub enum LocalizedPropertyKey {
    /// Written `familyNames`.
    FamilyNames,
    /// Written `copyrights`.
    Copyrights,
    /// Written `designers`.
    Designers,
    /// Written `manufacturers`.
    Manufacturers,
    /// Written `licenses`.
    Licenses,
    /// Written `trademarks`.
    Trademarks,
    /// Written `descriptions`.
    Descriptions,
    /// Written `sampleTexts`.
    SampleTexts,
    /// Written `compatibleFullNames`.
    CompatibleFullNames,
    /// Written `styleNames`.
    StyleNames,
}

pub open spec fn localized_property_key_name(x: LocalizedPropertyKey) -> Seq<char> {
    match x {
        LocalizedPropertyKey::FamilyNames => "familyNames"@,
        LocalizedPropertyKey::Copyrights => "copyrights"@,
        LocalizedPropertyKey::Designers => "designers"@,
        LocalizedPropertyKey::Manufacturers => "manufacturers"@,
        LocalizedPropertyKey::Licenses => "licenses"@,
        LocalizedPropertyKey::Trademarks => "trademarks"@,
        LocalizedPropertyKey::Descriptions => "descriptions"@,
        LocalizedPropertyKey::SampleTexts => "sampleTexts"@,
        LocalizedPropertyKey::CompatibleFullNames => "compatibleFullNames"@,
        LocalizedPropertyKey::StyleNames => "styleNames"@,
    }
}

impl LocalizedPropertyKey {
    /// The wire name.
    pub fn name(&self) -> (r: &'static str)
        ensures
            r@ == localized_property_key_name(*self),
    {
        match self {
            LocalizedPropertyKey::FamilyNames => "familyNames",
            LocalizedPropertyKey::Copyrights => "copyrights",
            LocalizedPropertyKey::Designers => "designers",
            LocalizedPropertyKey::Manufacturers => "manufacturers",
            LocalizedPropertyKey::Licenses => "licenses",
            LocalizedPropertyKey::Trademarks => "trademarks",
            LocalizedPropertyKey::Descriptions => "descriptions",
            LocalizedPropertyKey::SampleTexts => "sampleTexts",
            LocalizedPropertyKey::CompatibleFullNames => "compatibleFullNames",
            LocalizedPropertyKey::StyleNames => "styleNames",
        }
    }

    pub fn to_plist(&self) -> (r: Plist)
        ensures
            plist_view(r) == PlistModel::String(localized_property_key_name(*self)),
    {
        Plist::String(String::from_str(self.name()))
    }

    /// The variant that `s` names, if any.
    pub fn from_name(s: &String) -> (r: Option<LocalizedPropertyKey>)
        ensures
            r matches Some(x) ==> localized_property_key_name(x) == s@,
            r is None ==> forall|x: LocalizedPropertyKey| localized_property_key_name(x) != s@,
    {
        if text_is(s, "familyNames") {
            return Some(LocalizedPropertyKey::FamilyNames);
        }
        if text_is(s, "copyrights") {
            return Some(LocalizedPropertyKey::Copyrights);
        }
        if text_is(s, "designers") {
            return Some(LocalizedPropertyKey::Designers);
        }
        if text_is(s, "manufacturers") {
            return Some(LocalizedPropertyKey::Manufacturers);
        }
        if text_is(s, "licenses") {
            return Some(LocalizedPropertyKey::Licenses);
        }
        if text_is(s, "trademarks") {
            return Some(LocalizedPropertyKey::Trademarks);
        }
        if text_is(s, "descriptions") {
            return Some(LocalizedPropertyKey::Descriptions);
        }
        if text_is(s, "sampleTexts") {
            return Some(LocalizedPropertyKey::SampleTexts);
        }
        if text_is(s, "compatibleFullNames") {
            return Some(LocalizedPropertyKey::CompatibleFullNames);
        }
        if text_is(s, "styleNames") {
            return Some(LocalizedPropertyKey::StyleNames);
        }
        assert forall|x: LocalizedPropertyKey| localized_property_key_name(x) != s@ by {
            match x {
                LocalizedPropertyKey::FamilyNames => {},
                LocalizedPropertyKey::Copyrights => {},
                LocalizedPropertyKey::Designers => {},
                LocalizedPropertyKey::Manufacturers => {},
                LocalizedPropertyKey::Licenses => {},
                LocalizedPropertyKey::Trademarks => {},
                LocalizedPropertyKey::Descriptions => {},
                LocalizedPropertyKey::SampleTexts => {},
                LocalizedPropertyKey::CompatibleFullNames => {},
                LocalizedPropertyKey::StyleNames => {},
            }
        }
        None
    }

    pub fn from_plist(v: &Plist) -> (r: Result<LocalizedPropertyKey, DecodeError>)
        ensures
            r matches Ok(x) ==> plist_view(*v) == PlistModel::String(localized_property_key_name(x)),
            r is Err ==> forall|x: LocalizedPropertyKey| plist_view(*v) != PlistModel::String(localized_property_key_name(x)),
            r is Err && plist_view(*v) is String ==> names_unknown(
                r->Err_0,
                plist_view(*v)->String_0,
            ),
    {
        match v {
            Plist::String(s) => match LocalizedPropertyKey::from_name(s) {
                Some(x) => Ok(x),
                None => Err(DecodeError::new(DecodeErrorKind::UnknownVariant { found: s.clone() })),
            },
            _ => Err(DecodeError::new(DecodeErrorKind::TypeMismatch { expected: "string" })),
        }
    }
}
/// The key of a font property that has one value.
#[derive(Debug, Clone, Copy, PartialEq, Eq, Structural)]
pub enum SingularPropertyKey {
    /// Written `designer`.
    Designer,
    /// Written `manufacturer`.
    Manufacturer,
    /// Written `designerURL`.
    DesignerUrl,
    /// Written `manufacturerURL`.
    ManufacturerUrl,
    /// Written `licenseURL`.
    LicenseUrl,
    /// Written `postscriptFullName`.
    PostscriptFullName,
    /// Written `postscriptFontName`.
    PostscriptFontName,
    /// Written `WWSFamilyName`.
    WwsFamilyName,
    /// Written `versionString`.
    VersionString,
    /// Written `vendorID`.
    VendorID,
    /// Written `uniqueID`.
    UniqueID,
}

pub open spec fn singular_property_key_name(x: SingularPropertyKey) -> Seq<char> {
    match x {
        SingularPropertyKey::Designer => "designer"@,
        SingularPropertyKey::Manufacturer => "manufacturer"@,
        SingularPropertyKey::DesignerUrl => "designerURL"@,
        SingularPropertyKey::ManufacturerUrl => "manufacturerURL"@,
        SingularPropertyKey::LicenseUrl => "licenseURL"@,
        SingularPropertyKey::PostscriptFullName => "postscriptFullName"@,
        SingularPropertyKey::PostscriptFontName => "postscriptFontName"@,
        SingularPropertyKey::WwsFamilyName => "WWSFamilyName"@,
        SingularPropertyKey::VersionString => "versionString"@,
        SingularPropertyKey::VendorID => "vendorID"@,
        SingularPropertyKey::UniqueID => "uniqueID"@,
    }
}

impl SingularPropertyKey {
    /// The wire name.
    pub fn name(&self) -> (r: &'static str)
        ensures
            r@ == singular_property_key_name(*self),
    {
        match self {
            SingularPropertyKey::Designer => "designer",
            SingularPropertyKey::Manufacturer => "manufacturer",
            SingularPropertyKey::DesignerUrl => "designerURL",
            SingularPropertyKey::ManufacturerUrl => "manufacturerURL",
            SingularPropertyKey::LicenseUrl => "licenseURL",
            SingularPropertyKey::PostscriptFullName => "postscriptFullName",
            SingularPropertyKey::PostscriptFontName => "postscriptFontName",
            SingularPropertyKey::WwsFamilyName => "WWSFamilyName",
            SingularPropertyKey::VersionString => "versionString",
            SingularPropertyKey::VendorID => "vendorID",
            SingularPropertyKey::UniqueID => "uniqueID",
        }
    }

    pub fn to_plist(&self) -> (r: Plist)
        ensures
            plist_view(r) == PlistModel::String(singular_property_key_name(*self)),
    {
        Plist::String(String::from_str(self.name()))
    }

    /// The variant that `s` names, if any.
    pub fn from_name(s: &String) -> (r: Option<SingularPropertyKey>)
        ensures
            r matches Some(x) ==> singular_property_key_name(x) == s@,
            r is None ==> forall|x: SingularPropertyKey| singular_property_key_name(x) != s@,
    {
        if text_is(s, "designer") {
            return Some(SingularPropertyKey::Designer);
        }
        if text_is(s, "manufacturer") {
            return Some(SingularPropertyKey::Manufacturer);
        }
        if text_is(s, "designerURL") {
            return Some(SingularPropertyKey::DesignerUrl);
        }
        if text_is(s, "manufacturerURL") {
            return Some(SingularPropertyKey::ManufacturerUrl);
        }
        if text_is(s, "licenseURL") {
            return Some(SingularPropertyKey::LicenseUrl);
        }
        if text_is(s, "postscriptFullName") {
            return Some(SingularPropertyKey::PostscriptFullName);
        }
        if text_is(s, "postscriptFontName") {
            return Some(SingularPropertyKey::PostscriptFontName);
        }
        if text_is(s, "WWSFamilyName") {
            return Some(SingularPropertyKey::WwsFamilyName);
        }
        if text_is(s, "versionString") {
            return Some(SingularPropertyKey::VersionString);
        }
        if text_is(s, "vendorID") {
            return Some(SingularPropertyKey::VendorID);
        }
        if text_is(s, "uniqueID") {
            return Some(SingularPropertyKey::UniqueID);
        }
        assert forall|x: SingularPropertyKey| singular_property_key_name(x) != s@ by {
            match x {
                SingularPropertyKey::Designer => {},
                SingularPropertyKey::Manufacturer => {},
                SingularPropertyKey::DesignerUrl => {},
                SingularPropertyKey::ManufacturerUrl => {},
                SingularPropertyKey::LicenseUrl => {},
                SingularPropertyKey::PostscriptFullName => {},
                SingularPropertyKey::PostscriptFontName => {},
                SingularPropertyKey::WwsFamilyName => {},
                SingularPropertyKey::VersionString => {},
                SingularPropertyKey::VendorID => {},
                SingularPropertyKey::UniqueID => {},
            }
        }
        None
    }

    pub fn from_plist(v: &Plist) -> (r: Result<SingularPropertyKey, DecodeError>)
        ensures
            r matches Ok(x) ==> plist_view(*v) == PlistModel::String(singular_property_key_name(x)),
            r is Err ==> forall|x: SingularPropertyKey| plist_view(*v) != PlistModel::String(singular_property_key_name(x)),
            r is Err && plist_view(*v) is String ==> names_unknown(
                r->Err_0,
                plist_view(*v)->String_0,
            ),
    {
        match v {
            Plist::String(s) => match SingularPropertyKey::from_name(s) {
                Some(x) => Ok(x),
                None => Err(DecodeError::new(DecodeErrorKind::UnknownVariant { found: s.clone() })),
            },
            _ => Err(DecodeError::new(DecodeErrorKind::TypeMismatch { expected: "string" })),
        }
    }
}
/// Reads the export type of an instance: `static` or `variable`.
pub fn deserialize_export_type(v: &Plist) -> (r: Result<ExportType, DecodeError>)
    ensures
        r matches Ok(x) ==> plist_view(*v) == PlistModel::String(export_type_name(x)),
        r is Err ==> forall|x: ExportType| plist_view(*v) != PlistModel::String(export_type_name(x)),
        r is Err && plist_view(*v) is String ==> names_unknown(
            r->Err_0,
            plist_view(*v)->String_0,
        ),
{
    ExportType::from_plist(v)
}

} // verus!
