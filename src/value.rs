use vstd::prelude::*;

verus! {

/// A fixed-point decimal with four fractional digits: `units / 10_000`.
///
/// Floats are printed rounded to four fractional digits, so a parsed float is
/// kept at exactly that precision.
#[derive(Clone, Copy, Debug, Default, PartialEq, Eq, Structural)]
pub struct Real {
    pub units: i64,
}

/// The dynamic value tree of a property-list document.
#[derive(Debug)]
pub enum Plist {
    /// An ordered mapping with unique keys, in insertion order.
    Dictionary(Vec<(String, Plist)>),
    Array(Vec<Plist>),
    String(String),
    Integer(i64),
    Float(Real),
    Data(Vec<u8>),
}

/// The mathematical model of a [`Plist`].
pub enum PlistModel {
    Dictionary(Seq<(Seq<char>, PlistModel)>),
    Array(Seq<PlistModel>),
    String(Seq<char>),
    Integer(int),
    Float(int),
    Data(Seq<u8>),
}

pub open spec fn entries_view(entries: Seq<(String, Plist)>) -> Seq<(Seq<char>, PlistModel)>
    decreases entries,
{
    if entries.len() == 0 {
        Seq::empty()
    } else {
        let last = entries[entries.len() - 1];
        entries_view(entries.subrange(0, entries.len() - 1)).push((last.0@, plist_view(last.1)))
    }
}

pub open spec fn items_view(items: Seq<Plist>) -> Seq<PlistModel>
    decreases items,
{
    if items.len() == 0 {
        Seq::empty()
    } else {
        items_view(items.subrange(0, items.len() - 1)).push(plist_view(items[items.len() - 1]))
    }
}

pub open spec fn plist_view(p: Plist) -> PlistModel
    decreases p,
{
    match p {
        Plist::Dictionary(entries) => PlistModel::Dictionary(entries_view(entries@)),
        Plist::Array(items) => PlistModel::Array(items_view(items@)),
        Plist::String(s) => PlistModel::String(s@),
        Plist::Integer(n) => PlistModel::Integer(n as int),
        Plist::Float(r) => PlistModel::Float(r.units as int),
        Plist::Data(d) => PlistModel::Data(d@),
    }
}

fn clone_entries(entries: &Vec<(String, Plist)>) -> (r: Vec<(String, Plist)>)
    ensures
        entries_view(r@) == entries_view(entries@),
    decreases entries, 0nat,
{
    let mut out: Vec<(String, Plist)> = Vec::new();
    let mut i: usize = 0;
    while i < entries.len()
        invariant
            i <= entries@.len(),
            entries_view(out@) == entries_view(entries@.take(i as int)),
        decreases entries@.len() - i,
    {
        let ghost before = out@;
        out.push((entries[i].0.clone(), entries[i].1.deep_clone()));
        assert(out@.subrange(0, out@.len() - 1) == before);
        assert(entries@.take(i + 1).subrange(0, i as int) == entries@.take(i as int));
        i = i + 1;
    }
    assert(entries@.take(entries@.len() as int) == entries@);
    out
}

pub(crate) fn clone_items(items: &Vec<Plist>) -> (r: Vec<Plist>)
    ensures
        items_view(r@) == items_view(items@),
    decreases items, 0nat,
{
    let mut out: Vec<Plist> = Vec::new();
    let mut i: usize = 0;
    while i < items.len()
        invariant
            i <= items@.len(),
            items_view(out@) == items_view(items@.take(i as int)),
        decreases items@.len() - i,
    {
        let ghost before = out@;
        out.push(items[i].deep_clone());
        assert(out@.subrange(0, out@.len() - 1) == before);
        assert(items@.take(i + 1).subrange(0, i as int) == items@.take(i as int));
        i = i + 1;
    }
    assert(items@.take(items@.len() as int) == items@);
    out
}

impl Plist {
    /// A deep copy of the value.
    pub fn deep_clone(&self) -> (r: Plist)
        ensures
            plist_view(r) == plist_view(*self),
        decreases self, 1nat,
    {
        match self {
            Plist::Dictionary(entries) => Plist::Dictionary(clone_entries(entries)),
            Plist::Array(items) => Plist::Array(clone_items(items)),
            Plist::String(s) => Plist::String(s.clone()),
            Plist::Integer(n) => Plist::Integer(*n),
            Plist::Float(r) => Plist::Float(*r),
            Plist::Data(d) => Plist::Data(d.clone()),
        }
    }

    /// The entries, when the value is a dictionary.
    pub fn as_dict(&self) -> (r: Option<&Vec<(String, Plist)>>)
        ensures
            match *self {
                Plist::Dictionary(e) => r == Some(&e),
                _ => r is None,
            },
    {
        match self {
            Plist::Dictionary(e) => Some(e),
            _ => None,
        }
    }

    /// The text, when the value is a string.
    pub fn as_str(&self) -> (r: Option<&str>)
        ensures
            match *self {
                Plist::String(s) => r matches Some(t) && t@ == s@,
                _ => r is None,
            },
    {
        match self {
            Plist::String(s) => Some(s.as_str()),
            _ => None,
        }
    }
}

} // verus!
