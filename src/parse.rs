use vstd::prelude::*;

use crate::parse_spec::{
    alnum_run, all_digits, atom_value, dict_insert, digits_value, frac_units, hex_value, int_token,
    is_hex, key_index, parse_array, parse_data, parse_dict, parse_document,
    parse_key, parse_quoted, parse_value, point_index, real_token, real_token_units, sign_len,
    simple_escape, skip_ws, unicode_escape_ok, unicode_escape_value, ParseOutcome,
    SyntaxErrorModel,
};
use crate::error::{Error, LineColumn};
use crate::ser::lemma_entries_view;
use crate::text::is_alnum;
use crate::value::{entries_view, items_view, plist_view, Plist, PlistModel, Real};

verus! {

/// What went wrong in a document, without its position.
#[derive(Debug)]
pub enum SyntaxError {
    UnexpectedChar(char),
    UnclosedString,
    UnclosedData,
    BadData,
    UnknownEscape,
    InvalidUnicodeEscape(Vec<char>),
    NotAString(char),
    ExpectedEquals,
    ExpectedComma,
    ExpectedSemicolon,
    ExpectedCloseBrace,
    ExpectedCloseParen,
    UnexpectedToken(char),
    UnexpectedEnd,
}

impl View for SyntaxError {
    type V = SyntaxErrorModel;

    open spec fn view(&self) -> SyntaxErrorModel {
        match self {
            SyntaxError::UnexpectedChar(c) => SyntaxErrorModel::UnexpectedChar(*c),
            SyntaxError::UnclosedString => SyntaxErrorModel::UnclosedString,
            SyntaxError::UnclosedData => SyntaxErrorModel::UnclosedData,
            SyntaxError::BadData => SyntaxErrorModel::BadData,
            SyntaxError::UnknownEscape => SyntaxErrorModel::UnknownEscape,
            SyntaxError::InvalidUnicodeEscape(h) => SyntaxErrorModel::InvalidUnicodeEscape(h@),
            SyntaxError::NotAString(c) => SyntaxErrorModel::NotAString(*c),
            SyntaxError::ExpectedEquals => SyntaxErrorModel::ExpectedEquals,
            SyntaxError::ExpectedComma => SyntaxErrorModel::ExpectedComma,
            SyntaxError::ExpectedSemicolon => SyntaxErrorModel::ExpectedSemicolon,
            SyntaxError::ExpectedCloseBrace => SyntaxErrorModel::ExpectedCloseBrace,
            SyntaxError::ExpectedCloseParen => SyntaxErrorModel::ExpectedCloseParen,
            SyntaxError::UnexpectedToken(c) => SyntaxErrorModel::UnexpectedToken(*c),
            SyntaxError::UnexpectedEnd => SyntaxErrorModel::UnexpectedEnd,
        }
    }
}

pub type Parsed<T> = Result<(T, usize), (SyntaxError, usize)>;

/// A misplaced token is one of the punctuation characters.
pub open spec fn names_punctuation(k: SyntaxError) -> bool {
    &&& k matches SyntaxError::NotAString(c) ==> (c == '{' || c == '(' || c == '<' || c == ')' || c
        == ',' || c == ';' || c == '=')
    &&& k matches SyntaxError::UnexpectedToken(c) ==> (c == '}' || c == ')' || c == ',' || c
        == ';' || c == '=')
}

/// An executable outcome agrees with a spec outcome under `view`.
pub open spec fn outcome_is<T, M>(r: Parsed<T>, m: ParseOutcome<M>, view: spec_fn(T) -> M) -> bool {
    match (r, m) {
        (Ok((v, e)), Ok((mv, me))) => view(v) == mv && e as int == me,
        (Err((k, p)), Err((mk, mp))) => k@ == mk && p as int == mp,
        _ => false,
    }
}

fn skip_whitespace(s: &Vec<char>, i: usize) -> (j: usize)
    requires
        i <= s@.len(),
    ensures
        j as int == skip_ws(s@, i as int),
        i <= j <= s@.len(),
{
    let mut j = i;
    while j < s.len() && (s[j] == ' ' || s[j] == '\t' || s[j] == '\n' || s[j] == '\r')
        invariant
            i <= j <= s@.len(),
            skip_ws(s@, j as int) == skip_ws(s@, i as int),
        decreases s@.len() - j,
    {
        assert(s@.subrange(j as int, s@.len() as int).drop_first() == s@.subrange(
            j + 1,
            s@.len() as int,
        ));
        j = j + 1;
    }
    j
}

fn token_end(s: &Vec<char>, i: usize) -> (j: usize)
    requires
        i <= s@.len(),
    ensures
        j as int == i + alnum_run(s@.subrange(i as int, s@.len() as int)),
        i <= j <= s@.len(),
{
    let mut j = i;
    while j < s.len() && is_alnum(s[j])
        invariant
            i <= j <= s@.len(),
            j + alnum_run(s@.subrange(j as int, s@.len() as int)) == i + alnum_run(
                s@.subrange(i as int, s@.len() as int),
            ),
        decreases s@.len() - j,
    {
        assert(s@.subrange(j as int, s@.len() as int).drop_first() == s@.subrange(
            j + 1,
            s@.len() as int,
        ));
        j = j + 1;
    }
    j
}

pub(crate) fn copy_range(s: &Vec<char>, a: usize, b: usize) -> (r: Vec<char>)
    requires
        a <= b <= s@.len(),
    ensures
        r@ == s@.subrange(a as int, b as int),
{
    let mut r: Vec<char> = Vec::new();
    let mut k = a;
    while k < b
        invariant
            a <= k <= b <= s@.len(),
            r@ == s@.subrange(a as int, k as int),
        decreases b - k,
    {
        r.push(s[k]);
        k = k + 1;
        assert(r@ == s@.subrange(a as int, k as int));
    }
    r
}

/// Two to the power of 63: the magnitude of `i64::MIN`.
pub const TWO_POW_63: u64 = 9223372036854775808;

/// Reads `s[a..b]` as decimal digits: `None` if some character is not a
/// digit, else the value, or `TWO_POW_63 + 1` for any value above `TWO_POW_63`.
pub(crate) fn digits_capped(s: &Vec<char>, a: usize, b: usize) -> (r: Option<u64>)
    requires
        a <= b <= s@.len(),
    ensures
        r is Some <==> all_digits(s@.subrange(a as int, b as int)),
        r matches Some(v) ==> {
            let n = digits_value(s@.subrange(a as int, b as int));
            &&& n <= TWO_POW_63 ==> v == n
            &&& n > TWO_POW_63 ==> v == TWO_POW_63 + 1
        },
{
    let mut acc: u64 = 0;
    let mut k = a;
    while k < b
        invariant
            a <= k <= b <= s@.len(),
            all_digits(s@.subrange(a as int, k as int)),
            acc <= TWO_POW_63 + 1,
            digits_value(s@.subrange(a as int, k as int)) <= TWO_POW_63 ==> acc == digits_value(
                s@.subrange(a as int, k as int),
            ),
            digits_value(s@.subrange(a as int, k as int)) > TWO_POW_63 ==> acc == TWO_POW_63 + 1,
        decreases b - k,
    {
        let c = s[k];
        if !('0' <= c && c <= '9') {
            assert(s@.subrange(a as int, b as int)[k - a] == c);
            return None;
        }
        let d: u64 = (c as u32 - 48) as u64;
        let ghost prev = s@.subrange(a as int, k as int);
        let ghost next = s@.subrange(a as int, k + 1);
        assert(next.drop_last() == prev);
        assert(digits_value(next) == digits_value(prev) * 10 + d);
        if acc > TWO_POW_63 {
            acc = TWO_POW_63 + 1;
        } else {
            let wide: u128 = (acc as u128) * 10 + d as u128;
            if wide > TWO_POW_63 as u128 {
                acc = TWO_POW_63 + 1;
            } else {
                acc = wide as u64;
            }
        }
        k = k + 1;
        assert forall|j: int| 0 <= j < next.len() implies crate::parse_spec::is_digit(
            #[trigger] next[j],
        ) by {
            if j < prev.len() {
                assert(next[j] == prev[j]);
            }
        }
    }
    Some(acc)
}

/// The value of an unquoted token `s[a..b]`: an integer, a real or a string.
fn parse_atom(s: &Vec<char>, a: usize, b: usize) -> (r: Plist)
    requires
        a < b <= s@.len(),
    ensures
        plist_view(r) == atom_value(s@.subrange(a as int, b as int)),
{
    let ghost t = s@.subrange(a as int, b as int);
    let sign: usize = if s[a] == '-' {
        1
    } else {
        0
    };
    assert(sign as int == sign_len(t));
    assert(t.subrange(sign as int, t.len() as int) == s@.subrange(a + sign, b as int));
    if a + sign < b {
        if let Some(v) = digits_capped(s, a + sign, b) {
            if sign == 1 && v <= TWO_POW_63 {
                let n: i64 = (-(v as i128)) as i64;
                return Plist::Integer(n);
            }
            if sign == 0 && v < TWO_POW_63 {
                return Plist::Integer(v as i64);
            }
        }
    }
    assert(!int_token(t));
    match real_units(s, a, b) {
        Some(u) => Plist::Float(Real { units: u }),
        None => {
            let cs = copy_range(s, a, b);
            Plist::String(crate::text::string_of(cs.as_slice()))
        },
    }
}

/// Reads `s[a..b]` as a decimal number, in ten-thousandths.
pub(crate) fn real_units(s: &Vec<char>, a: usize, b: usize) -> (r: Option<i64>)
    requires
        a <= b <= s@.len(),
    ensures
        real_token(s@.subrange(a as int, b as int)) ==> r == Some(
            real_token_units(s@.subrange(a as int, b as int)) as i64,
        ),
        !real_token(s@.subrange(a as int, b as int)) ==> r is None,
        r matches Some(u) ==> u as int == real_token_units(s@.subrange(a as int, b as int)),
{
    let ghost t = s@.subrange(a as int, b as int);
    let sign: usize = if a < b && s[a] == '-' {
        1
    } else {
        0
    };
    assert(sign as int == sign_len(t));
    let mut p = a + sign;
    while p < b && s[p] != '.'
        invariant
            a + sign <= p <= b,
            b <= s@.len(),
            t == s@.subrange(a as int, b as int),
            point_index(t, (p - a) as int) == point_index(t, sign as int),
        decreases b - p,
    {
        assert(t[(p - a) as int] == s@[p as int]);
        p = p + 1;
    }
    assert(point_index(t, sign as int) == p - a);
    let q = if p < b {
        p + 1
    } else {
        b
    };
    assert(t.subrange(sign as int, (p - a) as int) == s@.subrange(a + sign, p as int));
    assert((if p < b {
        t.subrange((p - a) + 1, t.len() as int)
    } else {
        Seq::empty()
    }) == s@.subrange(q as int, b as int));
    let whole = digits_capped(s, a + sign, p);
    let frac = digits_capped(s, q, b);
    if p - (a + sign) + (b - q) > 0 {
        if let (Some(w), Some(_)) = (whole, frac) {
            let fr = frac_units_of(s, q, b);
            if w <= TWO_POW_63 {
                let mag: u128 = (w as u128) * 10000 + fr as u128;
                if sign == 1 && mag <= TWO_POW_63 as u128 {
                    return Some((-(mag as i128)) as i64);
                }
                if sign == 0 && mag < TWO_POW_63 as u128 {
                    return Some(mag as i64);
                }
            }
        }
    }
    None
}

fn frac_digit_at(s: &Vec<char>, q: usize, b: usize, k: usize) -> (r: u64)
    requires
        q <= b <= s@.len(),
        all_digits(s@.subrange(q as int, b as int)),
    ensures
        r == crate::parse_spec::frac_digit(s@.subrange(q as int, b as int), k as int),
        r <= 9,
{
    if k < b - q {
        assert(s@.subrange(q as int, b as int)[k as int] == s@[q + k]);
        (s[q + k] as u32 - 48) as u64
    } else {
        0
    }
}

fn frac_units_of(s: &Vec<char>, q: usize, b: usize) -> (r: u64)
    requires
        q <= b <= s@.len(),
        all_digits(s@.subrange(q as int, b as int)),
    ensures
        r == frac_units(s@.subrange(q as int, b as int)),
        r <= 10000,
{
    let round: u64 = if b - q > 4 && frac_digit_at(s, q, b, 4) >= 5 {
        1
    } else {
        0
    };
    frac_digit_at(s, q, b, 0) * 1000 + frac_digit_at(s, q, b, 1) * 100 + frac_digit_at(s, q, b, 2)
        * 10 + frac_digit_at(s, q, b, 3) + round
}

/// Relies on `char::from_u32`: `Some` exactly for Unicode scalar values,
/// holding the character with that code.
#[verifier::external_body]
fn char_from_u32(v: u32) -> (r: Option<char>)
    ensures
        (v < 0xD800 || (0xE000 <= v && v <= 0x10FFFF)) <==> r is Some,
        r matches Some(c) ==> c == v as char,
{
    char::from_u32(v)
}

fn hex_val(c: char) -> (r: u32)
    requires
        is_hex(c),
    ensures
        r == hex_value(c),
        r < 16,
{
    if '0' <= c && c <= '9' {
        c as u32 - 48
    } else if 'a' <= c && c <= 'f' {
        c as u32 - 87
    } else {
        c as u32 - 55
    }
}

fn is_hex_char(c: char) -> (r: bool)
    ensures
        r == is_hex(c),
{
    ('0' <= c && c <= '9') || ('a' <= c && c <= 'f') || ('A' <= c && c <= 'F')
}

fn unicode_char(h: &Vec<char>) -> (r: Option<char>)
    ensures
        r is Some <==> unicode_escape_ok(h@),
        r matches Some(c) ==> c == (unicode_escape_value(h@) as u32) as char,
{
    if h.len() != 4 || !is_hex_char(h[0]) || !is_hex_char(h[1]) || !is_hex_char(h[2])
        || !is_hex_char(h[3]) {
        return None;
    }
    let v: u32 = hex_val(h[0]) * 4096 + hex_val(h[1]) * 256 + hex_val(h[2]) * 16 + hex_val(h[3]);
    assert(forall|k: int| 0 <= k < 4 ==> is_hex(#[trigger] h@[k]));
    if 0xD800 <= v && v <= 0xDFFF {
        return None;
    }
    char_from_u32(v)
}

fn escape_char(e: char) -> (r: Option<char>)
    ensures
        r == simple_escape(e),
{
    if e == '"' || e == '\\' || e == '/' || e == '\'' {
        Some(e)
    } else if e == 'n' {
        Some('\n')
    } else if e == 't' {
        Some('\t')
    } else if e == 'r' {
        Some('\r')
    } else if e == 'a' {
        Some('\x07')
    } else if e == 'b' {
        Some('\x08')
    } else if e == 'f' {
        Some('\x0C')
    } else if e == 'v' {
        Some('\x0B')
    } else {
        None
    }
}

fn quoted(s: &Vec<char>, i: usize, start: usize) -> (r: Parsed<Vec<char>>)
    requires
        start < i <= s@.len(),
    ensures
        outcome_is(r, parse_quoted(s@, i as int, Seq::empty(), start as int), |v: Vec<char>| v@),
        r matches Ok((_, e)) ==> i < e <= s@.len(),
        r matches Err((_, p)) ==> p <= s@.len(),
        r matches Err((k, _)) ==> names_punctuation(k),
{
    let mut acc: Vec<char> = Vec::new();
    let mut k = i;
    loop
        invariant
            start < i <= k <= s@.len(),
            parse_quoted(s@, k as int, acc@, start as int) == parse_quoted(
                s@,
                i as int,
                Seq::empty(),
                start as int,
            ),
        decreases s@.len() - k,
    {
        if k >= s.len() {
            return Err((SyntaxError::UnclosedString, start));
        }
        let c = s[k];
        if c == '"' {
            return Ok((acc, k + 1));
        }
        if c == '\\' {
            if k + 1 >= s.len() {
                return Err((SyntaxError::UnclosedString, start));
            }
            let e = s[k + 1];
            if e == 'U' {
                let hend = if s.len() - k >= 6 {
                    k + 6
                } else {
                    s.len()
                };
                let h = copy_range(s, k + 2, hend);
                match unicode_char(&h) {
                    Some(ch) => {
                        acc.push(ch);
                        k = k + 6;
                    },
                    None => {
                        return Err((SyntaxError::InvalidUnicodeEscape(h), k));
                    },
                }
            } else {
                match escape_char(e) {
                    Some(x) => {
                        acc.push(x);
                        k = k + 2;
                    },
                    None => {
                        return Err((SyntaxError::UnknownEscape, k));
                    },
                }
            }
        } else {
            acc.push(c);
            k = k + 1;
        }
    }
}

fn data(s: &Vec<char>, i: usize, start: usize) -> (r: Parsed<Vec<u8>>)
    requires
        start < i <= s@.len(),
    ensures
        outcome_is(r, parse_data(s@, i as int, Seq::empty(), start as int), |v: Vec<u8>| v@),
        r matches Ok((_, e)) ==> i < e <= s@.len(),
        r matches Err((_, p)) ==> p <= s@.len(),
        r matches Err((k, _)) ==> names_punctuation(k),
{
    let mut acc: Vec<u8> = Vec::new();
    let mut k = i;
    loop
        invariant
            start < i <= k <= s@.len(),
            parse_data(s@, k as int, acc@, start as int) == parse_data(
                s@,
                i as int,
                Seq::empty(),
                start as int,
            ),
        decreases s@.len() - k,
    {
        let j = skip_whitespace(s, k);
        if j >= s.len() {
            return Err((SyntaxError::UnclosedData, start));
        }
        if s[j] == '>' {
            return Ok((acc, j + 1));
        }
        if !is_hex_char(s[j]) {
            return Err((SyntaxError::BadData, j));
        }
        if j + 1 >= s.len() {
            return Err((SyntaxError::UnclosedData, start));
        }
        if !is_hex_char(s[j + 1]) {
            return Err((SyntaxError::BadData, j + 1));
        }
        let byte: u8 = (hex_val(s[j]) * 16 + hex_val(s[j + 1])) as u8;
        acc.push(byte);
        k = j + 2;
    }
}

fn key(s: &Vec<char>, j: usize) -> (r: Parsed<Vec<char>>)
    requires
        j < s.len(),
    ensures
        outcome_is(r, parse_key(s@, j as int), |v: Vec<char>| v@),
        r matches Ok((_, e)) ==> j < e <= s@.len(),
        r matches Err((_, p)) ==> p <= s@.len(),
        r matches Err((k, _)) ==> names_punctuation(k),
{
    let c = s[j];
    if c == '"' {
        quoted(s, j + 1, j)
    } else if is_alnum(c) {
        let e = token_end(s, j);
        assert(s@.subrange(j as int, s@.len() as int)[0] == c);
        Ok((copy_range(s, j, e), e))
    } else if c == '{' || c == '(' || c == '<' || c == ')' || c == ',' || c == ';' || c == '=' {
        Err((SyntaxError::NotAString(c), j))
    } else {
        Err((SyntaxError::UnexpectedChar(c), j))
    }
}

proof fn lemma_entries_view_update(m: Seq<(String, Plist)>, x: int, k: String, v: Plist)
    requires
        0 <= x < m.len(),
    ensures
        entries_view(m.update(x, (k, v))) == entries_view(m).update(x, (k@, plist_view(v))),
{
    lemma_entries_view(m);
    lemma_entries_view(m.update(x, (k, v)));
    assert(entries_view(m.update(x, (k, v))) =~= entries_view(m).update(x, (k@, plist_view(v))));
}

proof fn lemma_entries_view_push(m: Seq<(String, Plist)>, k: String, v: Plist)
    ensures
        entries_view(m.push((k, v))) == entries_view(m).push((k@, plist_view(v))),
{
    assert(m.push((k, v)).subrange(0, m.len() as int) == m);
}

/// Adds an entry to a dictionary; an existing key keeps its place and takes
/// the new value.
pub(crate) fn insert_entry(entries: &mut Vec<(String, Plist)>, k: String, v: Plist)
    ensures
        entries_view(final(entries)@) == dict_insert(entries_view(old(entries)@), k@, plist_view(v)),
{
    let ghost m = entries_view(entries@);
    proof {
        lemma_entries_view(entries@);
    }
    let mut idx = entries.len();
    assert(m.take(idx as int) == m);
    while idx > 0
        invariant
            idx <= entries@.len(),
            entries@ == old(entries)@,
            m == entries_view(entries@),
            m.len() == entries@.len(),
            forall|j: int|
                0 <= j < entries@.len() ==> #[trigger] m[j] == (entries@[j].0@, plist_view(
                    entries@[j].1,
                )),
            key_index(m, k@) == key_index(m.take(idx as int), k@),
        decreases idx,
    {
        assert(m.take(idx as int).drop_last() == m.take(idx - 1));
        if entries[idx - 1].0 == k {
            proof {
                lemma_entries_view_update(entries@, idx - 1, k, v);
            }
            entries.set(idx - 1, (k, v));
            return;
        }
        idx = idx - 1;
    }
    proof {
        lemma_entries_view_push(entries@, k, v);
    }
    entries.push((k, v));
}

/// A value starting at or after index `i`, after whitespace.
pub fn value_at(s: &Vec<char>, i: usize) -> (r: Parsed<Plist>)
    requires
        i <= s@.len(),
    ensures
        outcome_is(r, parse_value(s@, i as int), |p: Plist| plist_view(p)),
        r matches Ok((_, e)) ==> i < e <= s@.len(),
        r matches Err((_, p)) ==> p <= s@.len(),
        r matches Err((k, _)) ==> names_punctuation(k),
    decreases s@.len() - i, 0nat,
{
    let j = skip_whitespace(s, i);
    if j >= s.len() {
        return Err((SyntaxError::UnexpectedEnd, j));
    }
    let c = s[j];
    if c == '{' {
        dict_at(s, j + 1)
    } else if c == '(' {
        array_at(s, j + 1)
    } else if c == '"' {
        match quoted(s, j + 1, j) {
            Ok((t, e)) => Ok((Plist::String(crate::text::string_of(t.as_slice())), e)),
            Err(x) => Err(x),
        }
    } else if c == '<' {
        match data(s, j + 1, j) {
            Ok((b, e)) => Ok((Plist::Data(b), e)),
            Err(x) => Err(x),
        }
    } else if is_alnum(c) {
        let e = token_end(s, j);
        assert(s@.subrange(j as int, s@.len() as int)[0] == c);
        Ok((parse_atom(s, j, e), e))
    } else if c == '}' || c == ')' || c == ',' || c == ';' || c == '=' {
        Err((SyntaxError::UnexpectedToken(c), j))
    } else {
        Err((SyntaxError::UnexpectedChar(c), j))
    }
}

/// The entries of a dictionary from index `i` on, just after its `{`.
fn dict_at(s: &Vec<char>, i: usize) -> (r: Parsed<Plist>)
    requires
        0 < i <= s@.len(),
    ensures
        outcome_is(r, parse_dict(s@, i as int, Seq::empty()), |p: Plist| plist_view(p)),
        r matches Ok((_, e)) ==> i < e <= s@.len(),
        r matches Err((_, p)) ==> p <= s@.len(),
        r matches Err((k, _)) ==> names_punctuation(k),
    decreases s@.len() - i, 1nat,
{
    let mut acc: Vec<(String, Plist)> = Vec::new();
    let mut k = i;
    assert(entries_view(acc@) == Seq::<(Seq<char>, PlistModel)>::empty());
    loop
        invariant
            0 < i <= k <= s@.len(),
            parse_dict(s@, k as int, entries_view(acc@)) == parse_dict(
                s@,
                i as int,
                Seq::empty(),
            ),
        decreases s@.len() - k,
    {
        let j = skip_whitespace(s, k);
        if j >= s.len() {
            return Err((SyntaxError::ExpectedCloseBrace, j));
        }
        if s[j] == '}' {
            return Ok((Plist::Dictionary(acc), j + 1));
        }
        let (name, e) = match key(s, j) {
            Ok(x) => x,
            Err(x) => {
                return Err(x);
            },
        };
        let q = skip_whitespace(s, e);
        if q >= s.len() || s[q] != '=' {
            return Err((SyntaxError::ExpectedEquals, q));
        }
        let (v, f) = match value_at(s, q + 1) {
            Ok(x) => x,
            Err(x) => {
                return Err(x);
            },
        };
        let sc = skip_whitespace(s, f);
        if sc >= s.len() || s[sc] != ';' {
            return Err((SyntaxError::ExpectedSemicolon, sc));
        }
        insert_entry(&mut acc, crate::text::string_of(name.as_slice()), v);
        k = sc + 1;
    }
}

/// The elements of an array from index `i` on, just after its `(`.
fn array_at(s: &Vec<char>, i: usize) -> (r: Parsed<Plist>)
    requires
        0 < i <= s@.len(),
    ensures
        outcome_is(r, parse_array(s@, i as int, Seq::empty()), |p: Plist| plist_view(p)),
        r matches Ok((_, e)) ==> i < e <= s@.len(),
        r matches Err((_, p)) ==> p <= s@.len(),
        r matches Err((k, _)) ==> names_punctuation(k),
    decreases s@.len() - i, 1nat,
{
    let mut acc: Vec<Plist> = Vec::new();
    let mut k = i;
    assert(items_view(acc@) == Seq::<PlistModel>::empty());
    loop
        invariant
            0 < i <= k <= s@.len(),
            parse_array(s@, k as int, items_view(acc@)) == parse_array(
                s@,
                i as int,
                Seq::empty(),
            ),
        decreases s@.len() - k,
    {
        let j = skip_whitespace(s, k);
        if j >= s.len() {
            return Err((SyntaxError::ExpectedCloseParen, j));
        }
        if s[j] == ')' {
            return Ok((Plist::Array(acc), j + 1));
        }
        let (v, f) = match value_at(s, j) {
            Ok(x) => x,
            Err(x) => {
                return Err(x);
            },
        };
        let m = skip_whitespace(s, f);
        let ghost before = acc@;
        if m >= s.len() {
            return Err((SyntaxError::ExpectedCloseParen, m));
        }
        if s[m] != ')' && s[m] != ',' {
            return Err((SyntaxError::ExpectedComma, m));
        }
        let close = s[m] == ')';
        acc.push(v);
        assert(acc@.subrange(0, before.len() as int) == before);
        if close {
            return Ok((Plist::Array(acc), m + 1));
        }
        k = m + 1;
    }
}

/// The number of bytes that `c` takes in UTF-8.
pub open spec fn utf8_width(c: char) -> nat {
    if (c as u32) < 0x80 {
        1
    } else if (c as u32) < 0x800 {
        2
    } else if (c as u32) < 0x10000 {
        3
    } else {
        4
    }
}

pub open spec fn newlines_in(t: Seq<char>) -> nat
    decreases t.len(),
{
    if t.len() == 0 {
        0
    } else {
        newlines_in(t.drop_last()) + if t.last() == '\n' {
            1nat
        } else {
            0nat
        }
    }
}

/// The UTF-8 length of the characters of `t` after its last newline.
pub open spec fn bytes_after_newline(t: Seq<char>) -> nat
    decreases t.len(),
{
    if t.len() == 0 {
        0
    } else if t.last() == '\n' {
        0
    } else {
        bytes_after_newline(t.drop_last()) + utf8_width(t.last())
    }
}

/// The line and the byte column of the character at index `pos` of `s`.
pub open spec fn position_of(s: Seq<char>, pos: int) -> LineColumn {
    let before = s.take(if pos < s.len() {
        pos
    } else {
        s.len() as int
    });
    LineColumn {
        line: (newlines_in(before) + 1) as usize,
        column: (bytes_after_newline(before) + 1) as usize,
    }
}

fn width(c: char) -> (r: usize)
    ensures
        r == utf8_width(c),
{
    let v = c as u32;
    if v < 0x80 {
        1
    } else if v < 0x800 {
        2
    } else if v < 0x10000 {
        3
    } else {
        4
    }
}

fn position_at(s: &Vec<char>, pos: usize) -> (r: LineColumn)
    requires
        s@.len() < usize::MAX / 4,
    ensures
        r == position_of(s@, pos as int),
{
    let mut line: usize = 1;
    let mut col: usize = 1;
    let mut i: usize = 0;
    while i < pos && i < s.len()
        invariant
            i <= s@.len() < usize::MAX / 4,
            i <= pos,
            line == newlines_in(s@.take(i as int)) + 1,
            col == bytes_after_newline(s@.take(i as int)) + 1,
            line <= i + 1,
            col <= 4 * i + 1,
        decreases s@.len() - i,
    {
        assert(s@.take(i + 1).drop_last() == s@.take(i as int));
        if s[i] == '\n' {
            line = line + 1;
            col = 1;
        } else {
            col = col + width(s[i]);
        }
        i = i + 1;
    }
    LineColumn { line, column: col }
}

/// What a position-free error becomes once its position is known.
pub open spec fn error_is(e: Error, k: SyntaxErrorModel, lc: LineColumn) -> bool {
    match k {
        SyntaxErrorModel::UnexpectedChar(c) => e == Error::UnexpectedChar { ch: c, lc },
        SyntaxErrorModel::UnclosedString => e == Error::UnclosedString { lc },
        SyntaxErrorModel::UnclosedData => e == Error::UnclosedData { lc },
        SyntaxErrorModel::BadData => e == Error::BadData { lc },
        SyntaxErrorModel::UnknownEscape => e == Error::UnknownEscape { lc },
        SyntaxErrorModel::InvalidUnicodeEscape(h) => e matches Error::InvalidUnicodeEscape {
            seq,
            lc: l,
        } && seq@ == h && l == lc,
        SyntaxErrorModel::NotAString(c) => e matches Error::NotAString { token_name, lc: l }
            && token_name@ == seq![c] && l == lc,
        SyntaxErrorModel::ExpectedEquals => e == Error::ExpectedEquals { lc },
        SyntaxErrorModel::ExpectedComma => e == Error::ExpectedComma { lc },
        SyntaxErrorModel::ExpectedSemicolon => e == Error::ExpectedSemicolon { lc },
        SyntaxErrorModel::ExpectedCloseBrace => e == Error::ExpectedCloseBrace { lc },
        SyntaxErrorModel::ExpectedCloseParen => e == Error::ExpectedCloseParen { lc },
        SyntaxErrorModel::UnexpectedToken(c) => e matches Error::UnexpectedToken { name, lc: l }
            && name@ == seq![c] && l == lc,
        SyntaxErrorModel::UnexpectedEnd => e matches Error::UnexpectedToken { name, lc: l }
            && name@ == "EOF"@ && l == lc,
    }
}

/// The text of a punctuation character that stands where it may not.
fn token_name(c: char) -> (r: &'static str)
    requires
        c == '{' || c == '(' || c == '<' || c == ')' || c == ',' || c == ';' || c == '=' || c
            == '}',
    ensures
        r@ == seq![c],
{
    if c == '{' {
        proof {
            reveal_strlit("{");
        }
        "{"
    } else if c == '(' {
        proof {
            reveal_strlit("(");
        }
        "("
    } else if c == '<' {
        proof {
            reveal_strlit("<");
        }
        "<"
    } else if c == ')' {
        proof {
            reveal_strlit(")");
        }
        ")"
    } else if c == ',' {
        proof {
            reveal_strlit(",");
        }
        ","
    } else if c == ';' {
        proof {
            reveal_strlit(";");
        }
        ";"
    } else if c == '=' {
        proof {
            reveal_strlit("=");
        }
        "="
    } else {
        proof {
            reveal_strlit("}");
        }
        "}"
    }
}

fn positioned(k: SyntaxError, lc: LineColumn) -> (e: Error)
    requires
        names_punctuation(k),
    ensures
        error_is(e, k@, lc),
{
    match k {
        SyntaxError::UnexpectedChar(c) => Error::UnexpectedChar { ch: c, lc },
        SyntaxError::UnclosedString => Error::UnclosedString { lc },
        SyntaxError::UnclosedData => Error::UnclosedData { lc },
        SyntaxError::BadData => Error::BadData { lc },
        SyntaxError::UnknownEscape => Error::UnknownEscape { lc },
        SyntaxError::InvalidUnicodeEscape(h) => Error::InvalidUnicodeEscape {
            seq: crate::text::string_of(h.as_slice()),
            lc,
        },
        SyntaxError::NotAString(c) => Error::NotAString { token_name: token_name(c), lc },
        SyntaxError::ExpectedEquals => Error::ExpectedEquals { lc },
        SyntaxError::ExpectedComma => Error::ExpectedComma { lc },
        SyntaxError::ExpectedSemicolon => Error::ExpectedSemicolon { lc },
        SyntaxError::ExpectedCloseBrace => Error::ExpectedCloseBrace { lc },
        SyntaxError::ExpectedCloseParen => Error::ExpectedCloseParen { lc },
        SyntaxError::UnexpectedToken(c) => Error::UnexpectedToken { name: token_name(c), lc },
        SyntaxError::UnexpectedEnd => Error::UnexpectedToken { name: "EOF", lc },
    }
}

impl Plist {
    /// Parses a whole document: one value, then nothing but whitespace.
    /// An error carries the line and byte column where it was found.
    pub fn parse(text: &str) -> (r: Result<Plist, Error>)
        requires
            text@.len() < usize::MAX / 4,
        ensures
            r is Ok <==> parse_document(text@) is Ok,
            r matches Ok(v) ==> parse_document(text@) matches Ok((m, _)) && plist_view(v) == m,
            r matches Err(e) ==> parse_document(text@) matches Err((k, p)) && error_is(
                e,
                k,
                position_of(text@, p),
            ),
    {
        let s = crate::text::chars_of(text);
        match value_at(&s, 0) {
            Err((k, p)) => Err(positioned(k, position_at(&s, p))),
            Ok((v, e)) => {
                let t = skip_whitespace(&s, e);
                if t < s.len() {
                    Err(Error::UnexpectedChar { ch: s[t], lc: position_at(&s, t) })
                } else {
                    Ok(v)
                }
            },
        }
    }
}

} // verus!
