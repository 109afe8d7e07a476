use vstd::prelude::*;

use crate::parse_spec::key_index;
use crate::ser::lemma_entries_view;
use crate::value::{entries_view, plist_view, Plist, PlistModel};

verus! {

/// One step of the path from a document's root to a value.
#[derive(Debug)]
pub enum PathSegment {
    Key(String),
    Index(usize),
}

/// What a typed decoder found wrong with a value.
#[derive(Debug)]
pub enum DecodeErrorKind {
    /// The value has another shape than the schema asks for.
    TypeMismatch { expected: &'static str },
    /// A record lacks a field that has no default.
    MissingField { field: &'static str },
    /// A string names none of an enumeration's variants.
    UnknownVariant { found: String },
    /// A custom codec could not read the value.
    InvalidValue { reason: &'static str },
}

/// A decode failure and the path, from the root, to the value that failed.
#[derive(Debug)]
pub struct DecodeError {
    pub path: Vec<PathSegment>,
    pub kind: DecodeErrorKind,
}

/// The error names an unknown variant, found as the text `s`.
pub open spec fn names_unknown(e: DecodeError, s: Seq<char>) -> bool {
    match e.kind {
        DecodeErrorKind::UnknownVariant { found } => found@ == s && e.path@.len() == 0,
        _ => false,
    }
}

pub open spec fn is_key(seg: PathSegment, k: Seq<char>) -> bool {
    seg matches PathSegment::Key(s) && s@ == k
}

pub open spec fn is_index(seg: PathSegment, i: int) -> bool {
    seg matches PathSegment::Index(n) && n == i
}

impl DecodeError {
    pub fn new(kind: DecodeErrorKind) -> (r: DecodeError)
        ensures
            r.path@.len() == 0,
            r.kind == kind,
    {
        DecodeError { path: Vec::new(), kind }
    }

    /// The same error, seen from the dictionary that holds the failed value
    /// under `key`.
    pub fn within_key(self, key: &str) -> (r: DecodeError)
        ensures
            r.path@.len() == self.path@.len() + 1,
            is_key(r.path@[0], key@),
            r.path@.subrange(1, r.path@.len() as int) == self.path@,
            r.kind == self.kind,
    {
        let mut path = self.path;
        path.insert(0, PathSegment::Key(String::from_str(key)));
        DecodeError { path, kind: self.kind }
    }

    /// The same error, seen from the array that holds the failed value at
    /// `index`.
    pub fn within_index(self, index: usize) -> (r: DecodeError)
        ensures
            r.path@.len() == self.path@.len() + 1,
            is_index(r.path@[0], index as int),
            r.path@.subrange(1, r.path@.len() as int) == self.path@,
            r.kind == self.kind,
    {
        let mut path = self.path;
        path.insert(0, PathSegment::Index(index));
        DecodeError { path, kind: self.kind }
    }
}

/// The value stored under `k`, if any.
pub open spec fn field(d: Seq<(Seq<char>, PlistModel)>, k: Seq<char>) -> Option<PlistModel> {
    let x = key_index(d, k);
    if x >= 0 {
        Some(d[x].1)
    } else {
        None
    }
}

/// The entries of a dictionary value.
pub open spec fn dict_of(m: PlistModel) -> Option<Seq<(Seq<char>, PlistModel)>> {
    match m {
        PlistModel::Dictionary(d) => Some(d),
        _ => None,
    }
}

proof fn lemma_key_index_bounds(d: Seq<(Seq<char>, PlistModel)>, k: Seq<char>)
    ensures
        -1 <= key_index(d, k) < d.len(),
        key_index(d, k) >= 0 ==> d[key_index(d, k)].0 == k,
    decreases d.len(),
{
    if d.len() > 0 && d.last().0 != k {
        lemma_key_index_bounds(d.drop_last(), k);
    }
}

/// Looks up `key` in the entries of a dictionary.
pub fn lookup<'a>(entries: &'a Vec<(String, Plist)>, key: &str) -> (r: Option<&'a Plist>)
    ensures
        match field(entries_view(entries@), key@) {
            Some(m) => r matches Some(p) && plist_view(*p) == m,
            None => r is None,
        },
{
    let ghost m = entries_view(entries@);
    proof {
        lemma_entries_view(entries@);
        lemma_key_index_bounds(m, key@);
    }
    let k = String::from_str(key);
    let mut idx = entries.len();
    assert(m.take(idx as int) == m);
    while idx > 0
        invariant
            idx <= entries@.len(),
            m == entries_view(entries@),
            m.len() == entries@.len(),
            forall|j: int|
                0 <= j < entries@.len() ==> #[trigger] m[j] == (entries@[j].0@, plist_view(
                    entries@[j].1,
                )),
            key_index(m, key@) == key_index(m.take(idx as int), key@),
            k@ == key@,
        decreases idx,
    {
        assert(m.take(idx as int).drop_last() == m.take(idx - 1));
        if entries[idx - 1].0 == k {
            return Some(&entries[idx - 1].1);
        }
        idx = idx - 1;
    }
    None
}

/// A wire integer read as a flag: any value but zero is true.
pub open spec fn bool_of(m: PlistModel) -> Option<bool> {
    match m {
        PlistModel::Integer(n) => Some(n != 0),
        _ => None,
    }
}

pub open spec fn i32_of(m: PlistModel) -> Option<i32> {
    match m {
        PlistModel::Integer(n) => if i32::MIN <= n <= i32::MAX {
            Some(n as i32)
        } else {
            None
        },
        _ => None,
    }
}

pub open spec fn string_of_model(m: PlistModel) -> Option<Seq<char>> {
    match m {
        PlistModel::String(s) => Some(s),
        _ => None,
    }
}

/// A flag field with a default: absent gives the default, an integer gives
/// its flag, anything else fails.
pub open spec fn bool_field(d: Seq<(Seq<char>, PlistModel)>, k: Seq<char>, default: bool) -> Option<
    bool,
> {
    match field(d, k) {
        None => Some(default),
        Some(m) => bool_of(m),
    }
}

pub open spec fn i32_field(d: Seq<(Seq<char>, PlistModel)>, k: Seq<char>, default: i32) -> Option<
    i32,
> {
    match field(d, k) {
        None => Some(default),
        Some(m) => i32_of(m),
    }
}

/// A required text field.
pub open spec fn string_field(d: Seq<(Seq<char>, PlistModel)>, k: Seq<char>) -> Option<Seq<char>> {
    match field(d, k) {
        None => None,
        Some(m) => string_of_model(m),
    }
}

/// An optional text field: `Some(None)` when absent, `None` when malformed.
pub open spec fn opt_string_field(d: Seq<(Seq<char>, PlistModel)>, k: Seq<char>) -> Option<
    Option<Seq<char>>,
> {
    match field(d, k) {
        None => Some(None),
        Some(m) => match string_of_model(m) {
            Some(s) => Some(Some(s)),
            None => None,
        },
    }
}

pub open spec fn opt_view(o: Option<String>) -> Option<Seq<char>> {
    match o {
        Some(s) => Some(s@),
        None => None,
    }
}

/// Reads a text value.
pub fn decode_string(v: &Plist) -> (r: Result<String, DecodeError>)
    ensures
        match string_of_model(plist_view(*v)) {
            Some(s) => r matches Ok(x) && x@ == s,
            None => r matches Err(e) && e.path@.len() == 0 && e.kind matches DecodeErrorKind::TypeMismatch { .. },
        },
{
    match v {
        Plist::String(s) => Ok(s.clone()),
        _ => Err(DecodeError::new(DecodeErrorKind::TypeMismatch { expected: "string" })),
    }
}

/// Reads an integer flag.
pub fn decode_bool(v: &Plist) -> (r: Result<bool, DecodeError>)
    ensures
        match bool_of(plist_view(*v)) {
            Some(b) => r == Ok::<bool, DecodeError>(b),
            None => r matches Err(e) && e.path@.len() == 0 && e.kind matches DecodeErrorKind::TypeMismatch { .. },
        },
{
    match v {
        Plist::Integer(n) => Ok(*n != 0),
        _ => Err(DecodeError::new(DecodeErrorKind::TypeMismatch { expected: "integer" })),
    }
}

/// Reads a 32-bit integer.
pub fn decode_i32(v: &Plist) -> (r: Result<i32, DecodeError>)
    ensures
        match i32_of(plist_view(*v)) {
            Some(n) => r == Ok::<i32, DecodeError>(n),
            None => r matches Err(e) && e.path@.len() == 0 && e.kind matches DecodeErrorKind::TypeMismatch { .. },
        },
{
    match v {
        Plist::Integer(n) => {
            if i32::MIN as i64 <= *n && *n <= i32::MAX as i64 {
                Ok(*n as i32)
            } else {
                Err(DecodeError::new(DecodeErrorKind::TypeMismatch { expected: "32-bit integer" }))
            }
        },
        _ => Err(DecodeError::new(DecodeErrorKind::TypeMismatch { expected: "integer" })),
    }
}

/// A required text field of a record; an error names the field.
pub fn string_field_of(entries: &Vec<(String, Plist)>, key: &'static str) -> (r: Result<
    String,
    DecodeError,
>)
    ensures
        match string_field(entries_view(entries@), key@) {
            Some(s) => r matches Ok(x) && x@ == s,
            None => r is Err,
        },
        r matches Err(e) ==> (field(entries_view(entries@), key@) is None && e.path@.len() == 0
            && e.kind == (DecodeErrorKind::MissingField { field: key })) || (field(
            entries_view(entries@),
            key@,
        ) is Some && e.path@.len() == 1 && is_key(e.path@[0], key@)),
{
    match lookup(entries, key) {
        None => Err(DecodeError::new(DecodeErrorKind::MissingField { field: key })),
        Some(v) => match decode_string(v) {
            Ok(x) => Ok(x),
            Err(e) => Err(e.within_key(key)),
        },
    }
}

/// An optional text field of a record.
pub fn opt_string_field_of(entries: &Vec<(String, Plist)>, key: &'static str) -> (r: Result<
    Option<String>,
    DecodeError,
>)
    ensures
        match opt_string_field(entries_view(entries@), key@) {
            Some(o) => r matches Ok(x) && opt_view(x) == o,
            None => r matches Err(e) && e.path@.len() == 1 && is_key(e.path@[0], key@),
        },
{
    match lookup(entries, key) {
        None => Ok(None),
        Some(v) => match decode_string(v) {
            Ok(x) => Ok(Some(x)),
            Err(e) => Err(e.within_key(key)),
        },
    }
}

/// A flag field of a record, `default` when absent.
pub fn bool_field_of(entries: &Vec<(String, Plist)>, key: &'static str, default: bool) -> (r: Result<
    bool,
    DecodeError,
>)
    ensures
        match bool_field(entries_view(entries@), key@, default) {
            Some(b) => r == Ok::<bool, DecodeError>(b),
            None => r matches Err(e) && e.path@.len() == 1 && is_key(e.path@[0], key@),
        },
{
    match lookup(entries, key) {
        None => Ok(default),
        Some(v) => match decode_bool(v) {
            Ok(x) => Ok(x),
            Err(e) => Err(e.within_key(key)),
        },
    }
}

/// A 32-bit integer field of a record, `default` when absent.
pub fn i32_field_of(entries: &Vec<(String, Plist)>, key: &'static str, default: i32) -> (r: Result<
    i32,
    DecodeError,
>)
    ensures
        match i32_field(entries_view(entries@), key@, default) {
            Some(n) => r == Ok::<i32, DecodeError>(n),
            None => r matches Err(e) && e.path@.len() == 1 && is_key(e.path@[0], key@),
        },
{
    match lookup(entries, key) {
        None => Ok(default),
        Some(v) => match decode_i32(v) {
            Ok(x) => Ok(x),
            Err(e) => Err(e.within_key(key)),
        },
    }
}

/// The entries of a record's dictionary.
pub fn record_entries(v: &Plist) -> (r: Result<&Vec<(String, Plist)>, DecodeError>)
    ensures
        match dict_of(plist_view(*v)) {
            Some(d) => r matches Ok(e) && entries_view(e@) == d,
            None => r matches Err(e) && e.path@.len() == 0,
        },
{
    match v {
        Plist::Dictionary(entries) => Ok(entries),
        _ => Err(DecodeError::new(DecodeErrorKind::TypeMismatch { expected: "dictionary" })),
    }
}

/// A dictionary entry whose key is `key`.
pub fn entry(key: &str, value: Plist) -> (r: (String, Plist))
    ensures
        r.0@ == key@,
        r.1 == value,
{
    (String::from_str(key), value)
}

/// In a dictionary where no later entry repeats the key of entry `i`, that
/// key finds entry `i`.
pub proof fn lemma_field_at(d: Seq<(Seq<char>, PlistModel)>, i: int)
    requires
        0 <= i < d.len(),
        forall|j: int| i < j < d.len() ==> #[trigger] d[j].0 != d[i].0,
    ensures
        field(d, d[i].0) == Some(d[i].1),
    decreases d.len(),
{
    if i < d.len() - 1 {
        assert(d.drop_last()[i] == d[i]);
        assert(d[d.len() - 1].0 != d[i].0);
        lemma_field_at(d.drop_last(), i);
        lemma_key_index_bounds(d.drop_last(), d[i].0);
        let x = key_index(d.drop_last(), d[i].0);
        assert(d.drop_last()[x] == d[x]);
    }
}

/// A key that no entry has finds nothing.
pub proof fn lemma_field_absent(d: Seq<(Seq<char>, PlistModel)>, k: Seq<char>)
    requires
        forall|j: int| 0 <= j < d.len() ==> #[trigger] d[j].0 != k,
    ensures
        field(d, k) is None,
    decreases d.len(),
{
    if d.len() > 0 {
        lemma_field_absent(d.drop_last(), k);
    }
}

/// A document in the newer format names its format version at the top level.
pub fn is_glyphs3(plist: &Plist) -> (r: bool)
    ensures
        r == match dict_of(plist_view(*plist)) {
            Some(d) => field(d, ".formatVersion"@) is Some,
            None => false,
        },
{
    match plist {
        Plist::Dictionary(entries) => lookup(entries, ".formatVersion").is_some(),
        _ => false,
    }
}

/// Writes a list the short way: a single element stands alone, any other
/// number of elements forms an array.
pub fn serialize_as_tuple(items: Vec<Plist>) -> (r: Plist)
    ensures
        items@.len() == 1 ==> plist_view(r) == plist_view(items@[0]),
        items@.len() != 1 ==> plist_view(r) == PlistModel::Array(
            crate::value::items_view(items@),
        ),
{
    if items.len() == 1 {
        let mut items = items;
        let first = items.pop();
        match first {
            Some(p) => p,
            None => Plist::Array(items),
        }
    } else {
        Plist::Array(items)
    }
}

/// Reads a list written either way: an array gives its elements, any other
/// value is a list of one.
pub fn one_or_many(v: &Plist) -> (r: Vec<Plist>)
    ensures
        match plist_view(*v) {
            PlistModel::Array(items) => crate::value::items_view(r@) == items,
            m => r@.len() == 1 && plist_view(r@[0]) == m,
        },
{
    match v {
        Plist::Array(_) => match v.deep_clone() {
            Plist::Array(items) => items,
            other => {
                let mut r = Vec::new();
                r.push(other);
                r
            },
        },
        _ => {
            let mut r = Vec::new();
            r.push(v.deep_clone());
            r
        },
    }
}

/// A key finds its entry in the later part of a dictionary first.
pub proof fn lemma_field_concat(
    a: Seq<(Seq<char>, PlistModel)>,
    b: Seq<(Seq<char>, PlistModel)>,
    k: Seq<char>,
)
    ensures
        field(a + b, k) == if field(b, k) is Some {
            field(b, k)
        } else {
            field(a, k)
        },
    decreases b.len(),
{
    lemma_key_index_bounds(b, k);
    if b.len() == 0 {
        assert(a + b == a);
    } else {
        assert((a + b).drop_last() == a + b.drop_last());
        assert((a + b).last() == b.last());
        lemma_field_concat(a, b.drop_last(), k);
        lemma_key_index_bounds(a + b.drop_last(), k);
        lemma_key_index_bounds(b.drop_last(), k);
        let x = key_index(a + b.drop_last(), k);
        if x >= 0 {
            assert((a + b.drop_last())[x] == (a + b)[x]);
        }
        let y = key_index(b.drop_last(), k);
        if y >= 0 {
            assert(b.drop_last()[y] == b[y]);
        }
    }
}

/// A dictionary of one entry.
pub proof fn lemma_field_single(k2: Seq<char>, v: PlistModel, k: Seq<char>)
    ensures
        field(seq![(k2, v)], k) == if k2 == k {
            Some(v)
        } else {
            None::<PlistModel>
        },
{
    let d = seq![(k2, v)];
    assert(d.drop_last() == Seq::<(Seq<char>, PlistModel)>::empty());
    assert(key_index(Seq::<(Seq<char>, PlistModel)>::empty(), k) == -1);
    assert(d.last() == (k2, v));
    if k2 != k {
        assert(key_index(d, k) == key_index(d.drop_last(), k));
    } else {
        assert(key_index(d, k) == 0);
    }
}

} // verus!
