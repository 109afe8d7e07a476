use vstd::prelude::*;

use crate::bridge::{dict_of, field, lookup, string_field};
use crate::text::text_is;
use crate::error::Error;
use crate::file_name::{file_name_of, user_name_to_file_name};
use crate::parse::insert_entry;
use crate::parse_spec::dict_insert;
use crate::value::{entries_view, items_view, plist_view, Plist, PlistModel};

verus! {

/// The name of a value's shape, for error messages.
pub fn kind_name(p: &Plist) -> (r: &'static str)
    ensures
        r@.len() > 0,
{
    proof {
        reveal_strlit("dictionary");
        reveal_strlit("array");
        reveal_strlit("string");
        reveal_strlit("integer");
        reveal_strlit("float");
        reveal_strlit("data");
    }
    match p {
        Plist::Dictionary(_) => "dictionary",
        Plist::Array(_) => "array",
        Plist::String(_) => "string",
        Plist::Integer(_) => "integer",
        Plist::Float(_) => "float",
        Plist::Data(_) => "data",
    }
}

/// The display strings kept in a package's UI state: its `displayStrings`,
/// or an empty array when there are none.
pub fn ui_display_strings(ui_state: &Plist) -> (r: Result<Plist, Error>)
    ensures
        match dict_of(plist_view(*ui_state)) {
            Some(d) => r matches Ok(p) && plist_view(p) == match field(d, "displayStrings"@) {
                Some(m) => m,
                None => PlistModel::Array(Seq::empty()),
            },
            None => r matches Err(Error::UnexpectedDataType { .. }),
        },
{
    match ui_state {
        Plist::Dictionary(entries) => match lookup(entries, "displayStrings") {
            Some(v) => Ok(v.deep_clone()),
            None => {
                let empty: Vec<Plist> = Vec::new();
                assert(items_view(empty@) =~= Seq::<PlistModel>::empty());
                Ok(Plist::Array(empty))
            },
        },
        _ => Err(Error::UnexpectedDataType { expected: "dictionary", found: kind_name(ui_state) }),
    }
}

/// The file names of the strings among `items`, in order.
pub open spec fn order_file_names(items: Seq<PlistModel>) -> Seq<Seq<char>>
    decreases items.len(),
{
    if items.len() == 0 {
        Seq::empty()
    } else {
        let prev = order_file_names(items.drop_last());
        match items.last() {
            PlistModel::String(t) => prev.push(file_name_of(t)),
            _ => prev,
        }
    }
}

pub open spec fn strings_view(v: Seq<String>) -> Seq<Seq<char>> {
    v.map_values(|s: String| s@)
}

/// The file names, under `glyphs/`, of the glyphs that a package's order
/// lists; entries that are not strings are skipped.
pub fn glyph_file_names(order: &Plist) -> (r: Result<Vec<String>, Error>)
    ensures
        match plist_view(*order) {
            PlistModel::Array(items) => r matches Ok(names) && strings_view(names@)
                == order_file_names(items),
            _ => r matches Err(Error::UnexpectedDataType { .. }),
        },
{
    let items = match order {
        Plist::Array(items) => items,
        _ => {
            return Err(Error::UnexpectedDataType { expected: "array", found: kind_name(order) });
        },
    };
    proof {
        crate::ser::lemma_items_view(items@);
    }
    let ghost m = items_view(items@);
    let mut names: Vec<String> = Vec::new();
    let mut i: usize = 0;
    assert(strings_view(names@) =~= Seq::<Seq<char>>::empty());
    while i < items.len()
        invariant
            i <= items@.len(),
            m == items_view(items@),
            m.len() == items@.len(),
            plist_view(*order) == PlistModel::Array(m),
            forall|j: int| 0 <= j < items@.len() ==> #[trigger] m[j] == plist_view(items@[j]),
            strings_view(names@) == order_file_names(m.take(i as int)),
        decreases items@.len() - i,
    {
        assert(m.take(i + 1).drop_last() == m.take(i as int));
        match &items[i] {
            Plist::String(name) => {
                let f = user_name_to_file_name(name.as_str());
                let ghost before = names@;
                names.push(f);
                assert(strings_view(names@) =~= strings_view(before).push(f@));
            },
            _ => {},
        }
        i = i + 1;
    }
    assert(m.take(m.len() as int) == m);
    Ok(names)
}

/// Puts a package together: the font info dictionary, with the display
/// strings under `DisplayStrings` when there are any, and the glyphs under
/// `glyphs`.
pub fn assemble_package(toplevel: Plist, display_strings: Option<Plist>, glyphs: Vec<Plist>) -> (r:
    Result<Plist, Error>)
    ensures
        match dict_of(plist_view(toplevel)) {
            Some(d) => r matches Ok(p) && plist_view(p) == PlistModel::Dictionary(
                dict_insert(
                    match display_strings {
                        Some(ds) => dict_insert(d, "DisplayStrings"@, plist_view(ds)),
                        None => d,
                    },
                    "glyphs"@,
                    PlistModel::Array(items_view(glyphs@)),
                ),
            ),
            None => r matches Err(Error::UnexpectedDataType { .. }),
        },
{
    let mut entries = match toplevel {
        Plist::Dictionary(entries) => entries,
        other => {
            return Err(Error::UnexpectedDataType { expected: "dictionary", found: kind_name(&other) });
        },
    };
    match display_strings {
        Some(ds) => insert_entry(&mut entries, String::from_str("DisplayStrings"), ds),
        None => {},
    }
    insert_entry(&mut entries, String::from_str("glyphs"), Plist::Array(glyphs));
    Ok(Plist::Dictionary(entries))
}

pub open spec fn is_split_key(k: Seq<char>) -> bool {
    k == "glyphs"@ || k == "DisplayStrings"@
}

/// The entries of a font that stay in its font info file.
pub open spec fn font_info_entries(d: Seq<(Seq<char>, PlistModel)>) -> Seq<(Seq<char>, PlistModel)>
    decreases d.len(),
{
    if d.len() == 0 {
        Seq::empty()
    } else {
        let prev = font_info_entries(d.drop_last());
        if is_split_key(d.last().0) {
            prev
        } else {
            prev.push(d.last())
        }
    }
}

/// The name of a glyph, stored under `glyphname`.
pub open spec fn glyph_name_of(m: PlistModel) -> Option<Seq<char>> {
    match dict_of(m) {
        Some(g) => string_field(g, "glyphname"@),
        None => None,
    }
}

/// The glyphs of a font: its `glyphs` array, or none when it has no such key.
pub open spec fn glyphs_of(d: Seq<(Seq<char>, PlistModel)>) -> Option<Seq<PlistModel>> {
    match field(d, "glyphs"@) {
        None => Some(Seq::empty()),
        Some(PlistModel::Array(items)) => Some(items),
        Some(_) => None,
    }
}

pub open spec fn all_named(o: Option<Seq<PlistModel>>) -> bool {
    match o {
        Some(gs) => forall|i: int| 0 <= i < gs.len() ==> (#[trigger] glyph_name_of(gs[i])) is Some,
        None => false,
    }
}

/// The glyph names of the order file.
pub open spec fn order_model(gs: Seq<PlistModel>) -> PlistModel {
    PlistModel::Array(Seq::new(gs.len(), |i: int| PlistModel::String(glyph_name_of(gs[i])->Some_0)))
}

/// A font can be split into a package when it is a dictionary in the newer
/// format whose glyphs all have names.
pub open spec fn splittable(m: PlistModel) -> bool {
    match dict_of(m) {
        Some(d) => field(d, ".formatVersion"@) is Some && all_named(glyphs_of(d)),
        None => false,
    }
}

/// The UI state of a package: the display strings, when there are some.
pub open spec fn ui_state_of(d: Seq<(Seq<char>, PlistModel)>) -> Option<PlistModel> {
    match field(d, "DisplayStrings"@) {
        Some(PlistModel::Array(ds)) => if ds.len() > 0 {
            Some(PlistModel::Dictionary(seq![("displayStrings"@, PlistModel::Array(ds))]))
        } else {
            None
        },
        _ => None,
    }
}

/// The files of a package.
#[derive(Debug)]
pub struct PackageParts {
    /// The font without its glyphs and display strings.
    pub fontinfo: Plist,
    /// The glyph names, in order.
    pub order: Plist,
    /// The display strings, when there are some.
    pub ui_state: Option<Plist>,
    /// Each glyph with the file name it is stored under (without extension).
    pub glyphs: Vec<(String, Plist)>,
}

pub open spec fn opt_plist_view(o: Option<Plist>) -> Option<PlistModel> {
    match o {
        Some(p) => Some(plist_view(p)),
        None => None,
    }
}

proof fn lemma_unnamed(gs: Seq<PlistModel>, i: int)
    requires
        0 <= i < gs.len(),
        glyph_name_of(gs[i]) is None,
    ensures
        !all_named(Some(gs)),
{
    let o = Some(gs);
    assert(o->Some_0 == gs);
}

/// The names of the glyphs, and each glyph with its file name.
fn split_glyphs(glyph_items: &Vec<Plist>) -> (r: Result<(Vec<Plist>, Vec<(String, Plist)>), Error>)
    ensures
        r is Ok <==> all_named(Some(items_view(glyph_items@))),
        r matches Ok((names, glyphs)) ==> {
            let gs = items_view(glyph_items@);
            &&& items_view(names@) == order_model(gs)->Array_0
            &&& glyphs@.len() == gs.len()
            &&& forall|i: int|
                0 <= i < gs.len() ==> {
                    &&& (#[trigger] glyphs@[i]).0@ == file_name_of(glyph_name_of(gs[i])->Some_0)
                    &&& plist_view(glyphs@[i].1) == gs[i]
                }
        },
{
    let ghost gs = items_view(glyph_items@);
    proof {
        crate::ser::lemma_items_view(glyph_items@);
    }
    let mut names: Vec<Plist> = Vec::new();
    let mut glyphs: Vec<(String, Plist)> = Vec::new();
    let mut i: usize = 0;
    while i < glyph_items.len()
        invariant
            i <= glyph_items@.len(),
            gs == items_view(glyph_items@),
            gs.len() == glyph_items@.len(),
            forall|j: int| 0 <= j < glyph_items@.len() ==> #[trigger] gs[j] == plist_view(glyph_items@[j]),
            names@.len() == i,
            glyphs@.len() == i,
            forall|j: int| 0 <= j < i ==> (#[trigger] glyph_name_of(gs[j])) is Some,
            forall|j: int|
                0 <= j < i ==> {
                    &&& plist_view(#[trigger] names@[j]) == PlistModel::String(glyph_name_of(gs[j])->Some_0)
                    &&& glyphs@[j].0@ == file_name_of(glyph_name_of(gs[j])->Some_0)
                    &&& plist_view(glyphs@[j].1) == gs[j]
                },
        decreases glyph_items@.len() - i,
    {
        let g = &glyph_items[i];
        let name = match g {
            Plist::Dictionary(ge) => match lookup(ge, "glyphname") {
                Some(Plist::String(n)) => n.clone(),
                _ => {
                    proof {
                        lemma_unnamed(gs, i as int);
                    }
                    return Err(Error::UnexpectedDataType { expected: "glyph name", found: kind_name(g) });
                },
            },
            _ => {
                proof {
                    lemma_unnamed(gs, i as int);
                }
                return Err(Error::UnexpectedDataType { expected: "dictionary", found: kind_name(g) });
            },
        };
        let file = user_name_to_file_name(name.as_str());
        names.push(Plist::String(name));
        glyphs.push((file, g.deep_clone()));
        i = i + 1;
    }
    proof {
        crate::ser::lemma_items_view(names@);
    }
    assert(items_view(names@) =~= order_model(gs)->Array_0);
    assert forall|i: int| 0 <= i < gs.len() implies {
        &&& (#[trigger] glyphs@[i]).0@ == file_name_of(glyph_name_of(gs[i])->Some_0)
        &&& plist_view(glyphs@[i].1) == gs[i]
    } by {
        assert(plist_view(names@[i]) == PlistModel::String(glyph_name_of(gs[i])->Some_0));
    }
    Ok((names, glyphs))
}

fn font_info(entries: &Vec<(String, Plist)>) -> (r: Vec<(String, Plist)>)
    ensures
        entries_view(r@) == font_info_entries(entries_view(entries@)),
{
    let ghost d = entries_view(entries@);
    proof {
        crate::ser::lemma_entries_view(entries@);
    }
    let mut info: Vec<(String, Plist)> = Vec::new();
    let mut k: usize = 0;
    assert(entries_view(info@) =~= Seq::<(Seq<char>, PlistModel)>::empty());
    while k < entries.len()
        invariant
            k <= entries@.len(),
            d == entries_view(entries@),
            d.len() == entries@.len(),
            forall|j: int| 0 <= j < entries@.len() ==> #[trigger] d[j] == (entries@[j].0@, plist_view(entries@[j].1)),
            entries_view(info@) == font_info_entries(d.take(k as int)),
        decreases entries@.len() - k,
    {
        assert(d.take(k + 1).drop_last() == d.take(k as int));
        let e = &entries[k];
        if !(text_is(&e.0, "glyphs") || text_is(&e.0, "DisplayStrings")) {
            let ghost before = info@;
            info.push((e.0.clone(), e.1.deep_clone()));
            proof {
                crate::ser::lemma_entries_view(info@);
                crate::ser::lemma_entries_view(before);
            }
            assert(entries_view(info@) =~= entries_view(before).push(d[k as int]));
        }
        k = k + 1;
    }
    assert(d.take(d.len() as int) == d);
    info
}

fn ui_state(entries: &Vec<(String, Plist)>) -> (r: Option<Plist>)
    ensures
        opt_plist_view(r) == ui_state_of(entries_view(entries@)),
{
    match lookup(entries, "DisplayStrings") {
        Some(Plist::Array(ds)) => {
            if ds.len() > 0 {
                let mut ui: Vec<(String, Plist)> = Vec::new();
                ui.push((String::from_str("displayStrings"), Plist::Array(crate::value::clone_items(ds))));
                proof {
                    crate::ser::lemma_entries_view(ui@);
                }
                assert(entries_view(ui@) =~= seq![("displayStrings"@, PlistModel::Array(items_view(ds@)))]);
                Some(Plist::Dictionary(ui))
            } else {
                None
            }
        },
        _ => None,
    }
}

/// Splits a font in the newer format into the files of a package.
pub fn split_package(font: &Plist) -> (r: Result<PackageParts, Error>)
    ensures
        r is Ok <==> splittable(plist_view(*font)),
        r matches Ok(parts) ==> {
            let d = dict_of(plist_view(*font))->Some_0;
            let gs = glyphs_of(d)->Some_0;
            &&& plist_view(parts.fontinfo) == PlistModel::Dictionary(font_info_entries(d))
            &&& opt_plist_view(parts.ui_state) == ui_state_of(d)
            &&& plist_view(parts.order) == order_model(gs)
            &&& parts.glyphs@.len() == gs.len()
            &&& forall|i: int|
                0 <= i < gs.len() ==> {
                    &&& (#[trigger] parts.glyphs@[i]).0@ == file_name_of(glyph_name_of(gs[i])->Some_0)
                    &&& plist_view(parts.glyphs@[i].1) == gs[i]
                }
        },
{
    let entries = match font {
        Plist::Dictionary(entries) => entries,
        other => {
            return Err(Error::UnexpectedDataType { expected: "dictionary", found: kind_name(other) });
        },
    };
    if lookup(entries, ".formatVersion").is_none() {
        return Err(Error::Serialize(String::from_str("only fonts in the newer format can be saved as a package")));
    }
    let glyph_items: Vec<Plist> = match lookup(entries, "glyphs") {
        None => Vec::new(),
        Some(Plist::Array(items)) => crate::value::clone_items(items),
        Some(other) => {
            return Err(Error::UnexpectedDataType { expected: "array", found: kind_name(other) });
        },
    };
    assert(glyphs_of(entries_view(entries@)) == Some(items_view(glyph_items@))) by {
        if field(entries_view(entries@), "glyphs"@) is None {
            assert(items_view(glyph_items@) =~= Seq::<PlistModel>::empty());
        }
    }
    let (names, glyphs) = split_glyphs(&glyph_items)?;
    let info = font_info(entries);
    let ui = ui_state(entries);
    Ok(PackageParts { fontinfo: Plist::Dictionary(info), order: Plist::Array(names), ui_state: ui, glyphs })
}

} // verus!
