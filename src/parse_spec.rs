use vstd::prelude::*;

use crate::text::is_alnum_char;
use crate::value::PlistModel;

verus! {

/// What went wrong in a document, without its position.
pub enum SyntaxErrorModel {
    UnexpectedChar(char),
    UnclosedString,
    UnclosedData,
    BadData,
    UnknownEscape,
    InvalidUnicodeEscape(Seq<char>),
    NotAString(char),
    ExpectedEquals,
    ExpectedComma,
    ExpectedSemicolon,
    ExpectedCloseBrace,
    ExpectedCloseParen,
    UnexpectedToken(char),
    UnexpectedEnd,
}

/// A parse result: a value and the index after it, or an error and its index.
pub type ParseOutcome<T> = Result<(T, int), (SyntaxErrorModel, int)>;

pub open spec fn is_ws(c: char) -> bool {
    c == ' ' || c == '\t' || c == '\n' || c == '\r'
}

/// The number of whitespace characters at the start of `t`.
pub open spec fn ws_run(t: Seq<char>) -> nat
    decreases t.len(),
{
    if t.len() > 0 && is_ws(t[0]) {
        1 + ws_run(t.drop_first())
    } else {
        0
    }
}

/// The index of the first character at or after `i` that is not whitespace.
pub open spec fn skip_ws(s: Seq<char>, i: int) -> int {
    i + ws_run(s.subrange(i, s.len() as int))
}

/// The number of unquoted-token characters at the start of `t`.
pub open spec fn alnum_run(t: Seq<char>) -> nat
    decreases t.len(),
{
    if t.len() > 0 && is_alnum_char(t[0]) {
        1 + alnum_run(t.drop_first())
    } else {
        0
    }
}

pub open spec fn is_digit(c: char) -> bool {
    '0' <= c && c <= '9'
}

pub open spec fn all_digits(t: Seq<char>) -> bool {
    forall|i: int| 0 <= i < t.len() ==> is_digit(#[trigger] t[i])
}

/// The number that a run of decimal digits denotes.
pub open spec fn digits_value(t: Seq<char>) -> nat
    decreases t.len(),
{
    if t.len() == 0 {
        0
    } else {
        digits_value(t.drop_last()) * 10 + (t.last() as nat - 48) as nat
    }
}

pub open spec fn sign_len(t: Seq<char>) -> int {
    if t.len() > 0 && t[0] == '-' {
        1
    } else {
        0
    }
}

pub open spec fn signed(t: Seq<char>, magnitude: nat) -> int {
    if sign_len(t) == 1 {
        -magnitude
    } else {
        magnitude as int
    }
}

pub open spec fn fits_i64(n: int) -> bool {
    i64::MIN <= n <= i64::MAX
}

/// An optional `-` and one or more digits, whose value fits in 64 bits.
pub open spec fn int_token(t: Seq<char>) -> bool {
    let d = t.subrange(sign_len(t), t.len() as int);
    d.len() > 0 && all_digits(d) && fits_i64(signed(t, digits_value(d)))
}

pub open spec fn int_token_value(t: Seq<char>) -> int {
    signed(t, digits_value(t.subrange(sign_len(t), t.len() as int)))
}

/// The index of the decimal point in `t` at or after `i`, or `t.len()`.
pub open spec fn point_index(t: Seq<char>, i: int) -> int
    decreases t.len() - i,
{
    if i >= t.len() {
        t.len() as int
    } else if t[i] == '.' {
        i
    } else {
        point_index(t, i + 1)
    }
}

pub open spec fn frac_digit(b: Seq<char>, k: int) -> nat {
    if k < b.len() {
        (b[k] as nat - 48) as nat
    } else {
        0
    }
}

/// `b`, the digits after a decimal point, as ten-thousandths, rounded half
/// away from zero.
pub open spec fn frac_units(b: Seq<char>) -> nat {
    frac_digit(b, 0) * 1000 + frac_digit(b, 1) * 100 + frac_digit(b, 2) * 10 + frac_digit(b, 3)
        + if b.len() > 4 && frac_digit(b, 4) >= 5 {
        1nat
    } else {
        0nat
    }
}

/// A decimal number: an optional `-`, digits, and an optional point followed
/// by digits, with at least one digit in all; its value in ten-thousandths
/// must fit in 64 bits.
pub open spec fn real_token(t: Seq<char>) -> bool {
    let p = point_index(t, sign_len(t));
    let a = t.subrange(sign_len(t), p);
    let b = if p < t.len() {
        t.subrange(p + 1, t.len() as int)
    } else {
        Seq::empty()
    };
    &&& all_digits(a)
    &&& all_digits(b)
    &&& a.len() + b.len() > 0
    &&& fits_i64(signed(t, digits_value(a) * 10000 + frac_units(b)))
}

pub open spec fn real_token_units(t: Seq<char>) -> int {
    let p = point_index(t, sign_len(t));
    let a = t.subrange(sign_len(t), p);
    let b = if p < t.len() {
        t.subrange(p + 1, t.len() as int)
    } else {
        Seq::empty()
    };
    signed(t, digits_value(a) * 10000 + frac_units(b))
}

/// An unquoted token is an integer if it reads as one, else a real if it
/// reads as one, else a string.
pub open spec fn atom_value(t: Seq<char>) -> PlistModel {
    if int_token(t) {
        PlistModel::Integer(int_token_value(t))
    } else if real_token(t) {
        PlistModel::Float(real_token_units(t))
    } else {
        PlistModel::String(t)
    }
}

pub open spec fn is_hex(c: char) -> bool {
    ('0' <= c && c <= '9') || ('a' <= c && c <= 'f') || ('A' <= c && c <= 'F')
}

pub open spec fn hex_value(c: char) -> nat {
    if '0' <= c && c <= '9' {
        (c as nat - 48) as nat
    } else if 'a' <= c && c <= 'f' {
        (c as nat - 87) as nat
    } else {
        (c as nat - 55) as nat
    }
}

/// The character that a one-letter escape stands for.
pub open spec fn simple_escape(e: char) -> Option<char> {
    if e == '"' || e == '\\' || e == '/' || e == '\'' {
        Some(e)
    } else if e == 'n' {
        Some('\n')
    } else if e == 't' {
        Some('\t')
    } else if e == 'r' {
        Some('\r')
    } else if e == 'a' {
        Some('\x07')
    } else if e == 'b' {
        Some('\x08')
    } else if e == 'f' {
        Some('\x0C')
    } else if e == 'v' {
        Some('\x0B')
    } else {
        None
    }
}

/// Four hex digits that name a Unicode scalar value.
pub open spec fn unicode_escape_ok(h: Seq<char>) -> bool {
    &&& h.len() == 4
    &&& forall|k: int| 0 <= k < 4 ==> is_hex(#[trigger] h[k])
    &&& !(0xD800 <= unicode_escape_value(h) <= 0xDFFF)
}

pub open spec fn unicode_escape_value(h: Seq<char>) -> nat {
    hex_value(h[0]) * 4096 + hex_value(h[1]) * 256 + hex_value(h[2]) * 16 + hex_value(h[3])
}

/// The body of a quoted string from index `i` on, `acc` holding what came
/// before; `start` is the index of the opening quote.
pub open spec fn parse_quoted(s: Seq<char>, i: int, acc: Seq<char>, start: int) -> ParseOutcome<
    Seq<char>,
>
    decreases s.len() - i,
{
    if i < 0 || i >= s.len() {
        Err((SyntaxErrorModel::UnclosedString, start))
    } else if s[i] == '"' {
        Ok((acc, i + 1))
    } else if s[i] == '\\' {
        if i + 1 >= s.len() {
            Err((SyntaxErrorModel::UnclosedString, start))
        } else if s[i + 1] == 'U' {
            let h = s.subrange(i + 2, if i + 6 <= s.len() {
                i + 6
            } else {
                s.len() as int
            });
            if unicode_escape_ok(h) {
                parse_quoted(s, i + 6, acc.push((unicode_escape_value(h) as u32) as char), start)
            } else {
                Err((SyntaxErrorModel::InvalidUnicodeEscape(h), i))
            }
        } else if let Some(c) = simple_escape(s[i + 1]) {
            parse_quoted(s, i + 2, acc.push(c), start)
        } else {
            Err((SyntaxErrorModel::UnknownEscape, i))
        }
    } else {
        parse_quoted(s, i + 1, acc.push(s[i]), start)
    }
}

/// The hex pairs of a data block from index `i` on; `start` is the index of `<`.
pub open spec fn parse_data(s: Seq<char>, i: int, acc: Seq<u8>, start: int) -> ParseOutcome<
    Seq<u8>,
>
    decreases s.len() - i,
{
    let j = skip_ws(s, i);
    if i < 0 || j >= s.len() {
        Err((SyntaxErrorModel::UnclosedData, start))
    } else if s[j] == '>' {
        Ok((acc, j + 1))
    } else if !is_hex(s[j]) {
        Err((SyntaxErrorModel::BadData, j))
    } else if j + 1 >= s.len() {
        Err((SyntaxErrorModel::UnclosedData, start))
    } else if !is_hex(s[j + 1]) {
        Err((SyntaxErrorModel::BadData, j + 1))
    } else {
        parse_data(s, j + 2, acc.push((hex_value(s[j]) * 16 + hex_value(s[j + 1])) as u8), start)
    }
}

/// A dictionary key: a quoted string or an unquoted token, taken as text.
pub open spec fn parse_key(s: Seq<char>, j: int) -> ParseOutcome<Seq<char>> {
    let c = s[j];
    if c == '"' {
        parse_quoted(s, j + 1, Seq::empty(), j)
    } else if is_alnum_char(c) {
        let e = j + alnum_run(s.subrange(j, s.len() as int));
        Ok((s.subrange(j, e), e))
    } else if c == '{' || c == '(' || c == '<' || c == ')' || c == ',' || c == ';' || c == '=' {
        Err((SyntaxErrorModel::NotAString(c), j))
    } else {
        Err((SyntaxErrorModel::UnexpectedChar(c), j))
    }
}

/// The index of the entry with key `k`, if any.
pub open spec fn key_index(entries: Seq<(Seq<char>, PlistModel)>, k: Seq<char>) -> int
    decreases entries.len(),
{
    if entries.len() == 0 {
        -1
    } else if entries.last().0 == k {
        entries.len() - 1
    } else {
        key_index(entries.drop_last(), k)
    }
}

/// Adds an entry; a key that is already there keeps its place and takes the
/// new value.
pub open spec fn dict_insert(entries: Seq<(Seq<char>, PlistModel)>, k: Seq<char>, v: PlistModel) -> Seq<
    (Seq<char>, PlistModel),
> {
    let x = key_index(entries, k);
    if x >= 0 {
        entries.update(x, (k, v))
    } else {
        entries.push((k, v))
    }
}

/// A value starting at or after index `i` (after whitespace).
pub open spec fn parse_value(s: Seq<char>, i: int) -> ParseOutcome<PlistModel>
    decreases s.len() - i, 0nat,
{
    let j = skip_ws(s, i);
    if i < 0 || j >= s.len() {
        Err((SyntaxErrorModel::UnexpectedEnd, j))
    } else {
        let c = s[j];
        if c == '{' {
            parse_dict(s, j + 1, Seq::empty())
        } else if c == '(' {
            parse_array(s, j + 1, Seq::empty())
        } else if c == '"' {
            match parse_quoted(s, j + 1, Seq::empty(), j) {
                Ok((t, e)) => Ok((PlistModel::String(t), e)),
                Err(x) => Err(x),
            }
        } else if c == '<' {
            match parse_data(s, j + 1, Seq::empty(), j) {
                Ok((b, e)) => Ok((PlistModel::Data(b), e)),
                Err(x) => Err(x),
            }
        } else if is_alnum_char(c) {
            let e = j + alnum_run(s.subrange(j, s.len() as int));
            Ok((atom_value(s.subrange(j, e)), e))
        } else if c == '}' || c == ')' || c == ',' || c == ';' || c == '=' {
            Err((SyntaxErrorModel::UnexpectedToken(c), j))
        } else {
            Err((SyntaxErrorModel::UnexpectedChar(c), j))
        }
    }
}

/// The entries of a dictionary from index `i` on, after `{` or after `;`.
pub open spec fn parse_dict(s: Seq<char>, i: int, acc: Seq<(Seq<char>, PlistModel)>) -> ParseOutcome<
    PlistModel,
>
    decreases s.len() - i, 1nat,
{
    let j = skip_ws(s, i);
    if i < 0 || j >= s.len() {
        Err((SyntaxErrorModel::ExpectedCloseBrace, j))
    } else if s[j] == '}' {
        Ok((PlistModel::Dictionary(acc), j + 1))
    } else {
        match parse_key(s, j) {
            Err(x) => Err(x),
            Ok((k, e)) => {
                let q = skip_ws(s, e);
                if q >= s.len() || s[q] != '=' {
                    Err((SyntaxErrorModel::ExpectedEquals, q))
                } else if q + 1 <= i {
                    Err((SyntaxErrorModel::ExpectedEquals, q))
                } else {
                    match parse_value(s, q + 1) {
                        Err(x) => Err(x),
                        Ok((v, f)) => {
                            let sc = skip_ws(s, f);
                            if sc >= s.len() || s[sc] != ';' {
                                Err((SyntaxErrorModel::ExpectedSemicolon, sc))
                            } else if sc + 1 <= i {
                                Err((SyntaxErrorModel::ExpectedSemicolon, sc))
                            } else {
                                parse_dict(s, sc + 1, dict_insert(acc, k, v))
                            }
                        },
                    }
                }
            },
        }
    }
}

/// The elements of an array from index `i` on, after `(` or after `,`.
pub open spec fn parse_array(s: Seq<char>, i: int, acc: Seq<PlistModel>) -> ParseOutcome<PlistModel>
    decreases s.len() - i, 1nat,
{
    let j = skip_ws(s, i);
    if i < 0 || j >= s.len() {
        Err((SyntaxErrorModel::ExpectedCloseParen, j))
    } else if s[j] == ')' {
        Ok((PlistModel::Array(acc), j + 1))
    } else {
        match parse_value(s, j) {
            Err(x) => Err(x),
            Ok((v, f)) => {
                let m = skip_ws(s, f);
                if m >= s.len() {
                    Err((SyntaxErrorModel::ExpectedCloseParen, m))
                } else if s[m] == ')' {
                    Ok((PlistModel::Array(acc.push(v)), m + 1))
                } else if s[m] != ',' {
                    Err((SyntaxErrorModel::ExpectedComma, m))
                } else if m + 1 <= i {
                    Err((SyntaxErrorModel::ExpectedComma, m))
                } else {
                    parse_array(s, m + 1, acc.push(v))
                }
            },
        }
    }
}

/// A whole document: one value, then nothing but whitespace.
pub open spec fn parse_document(s: Seq<char>) -> ParseOutcome<PlistModel> {
    match parse_value(s, 0) {
        Err(x) => Err(x),
        Ok((v, e)) => {
            let t = skip_ws(s, e);
            if t < s.len() {
                Err((SyntaxErrorModel::UnexpectedChar(s[t]), t))
            } else {
                Ok((v, t))
            }
        },
    }
}

} // verus!
