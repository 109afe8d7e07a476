use vstd::prelude::*;

use crate::bridge::{DecodeError, DecodeErrorKind};
use crate::parse_spec::{all_digits, digits_value, hex_value, is_hex, is_ws};
use crate::ser::{int_text, nat_text};
use crate::text::{chars_of, push_char};
use crate::value::{plist_view, Plist, PlistModel};
use itertools::Itertools;

verus! {

/// Whether a flag is unset, the default that records leave out.
pub fn is_false(b: &bool) -> (r: bool)
    ensures
        r == !*b,
{
    !*b
}

/// Whether a flag is set.
pub fn is_true(b: &bool) -> (r: bool)
    ensures
        r == *b,
{
    *b
}

/// The default of flags that are set unless a document says otherwise.
pub fn bool_true() -> (r: bool)
    ensures
        r,
{
    true
}

/// Whether a value equals the default of 100 that records leave out.
pub fn is_one_hundred(value: &i32) -> (r: bool)
    ensures
        r == (*value == 100),
{
    *value == 100
}

/// The default of fields whose absent value is 100.
pub fn one_hundred() -> (r: i32)
    ensures
        r == 100,
{
    100
}

/// The format version assumed when a document names none.
pub fn version_two() -> (r: i32)
    ensures
        r == 2,
{
    2
}

/// An integer that must fit in eight bits, true exactly when it is 1.
pub fn int_to_bool(v: &Plist) -> (r: Result<bool, DecodeError>)
    ensures
        match plist_view(*v) {
            PlistModel::Integer(n) => if -128 <= n <= 127 {
                r == Ok::<bool, DecodeError>(n == 1)
            } else {
                r is Err
            },
            _ => r is Err,
        },
{
    match v {
        Plist::Integer(n) => {
            if -128 <= *n && *n <= 127 {
                Ok(*n == 1)
            } else {
                Err(DecodeError::new(DecodeErrorKind::TypeMismatch { expected: "8-bit integer" }))
            }
        },
        _ => Err(DecodeError::new(DecodeErrorKind::TypeMismatch { expected: "integer" })),
    }
}

/// Any string or integer is true; other values are refused.
pub fn anything_to_bool(v: &Plist) -> (r: Result<bool, DecodeError>)
    ensures
        (plist_view(*v) is String || plist_view(*v) is Integer) ==> r == Ok::<bool, DecodeError>(
            true,
        ),
        !(plist_view(*v) is String || plist_view(*v) is Integer) ==> r is Err,
{
    match v {
        Plist::String(_) | Plist::Integer(_) => Ok(true),
        _ => Err(DecodeError::new(DecodeErrorKind::TypeMismatch { expected: "anything" })),
    }
}

pub open spec fn upper_hex_char(d: int) -> char {
    if d < 10 {
        ((d + 48) as u8) as char
    } else {
        ((d - 10 + 65) as u8) as char
    }
}

/// The uppercase hexadecimal digits of `n`, most significant first.
pub open spec fn hex_digits_text(n: nat) -> Seq<char>
    decreases n,
{
    if n < 16 {
        seq![upper_hex_char(n as int)]
    } else {
        hex_digits_text(n / 16).push(upper_hex_char((n % 16) as int))
    }
}

/// `n` in uppercase hexadecimal, padded with zeros to at least four digits.
pub open spec fn hex4(n: nat) -> Seq<char> {
    let t = hex_digits_text(n);
    if t.len() < 4 {
        Seq::new((4 - t.len()) as nat, |i: int| '0') + t
    } else {
        t
    }
}

/// Code points as four-digit hex groups joined by commas.
pub open spec fn comma_hex_text(xs: Seq<u32>) -> Seq<char>
    decreases xs.len(),
{
    if xs.len() == 0 {
        Seq::empty()
    } else if xs.len() == 1 {
        hex4(xs[0] as nat)
    } else {
        comma_hex_text(xs.drop_last()) + seq![','] + hex4(xs.last() as nat)
    }
}

fn upper_hex_digit(d: u32) -> (c: char)
    requires
        d < 16,
    ensures
        c == upper_hex_char(d as int),
{
    if d < 10 {
        ((d as u8) + 48) as char
    } else {
        ((d as u8) - 10 + 65) as char
    }
}

fn write_hex_digits(n: u32, out: &mut String)
    ensures
        final(out)@ == old(out)@ + hex_digits_text(n as nat),
    decreases n,
{
    if n >= 16 {
        write_hex_digits(n / 16, out);
    }
    push_char(out, upper_hex_digit(n % 16));
}

proof fn lemma_hex_digits_len(n: nat)
    ensures
        n < 16 ==> hex_digits_text(n).len() == 1,
        16 <= n < 256 ==> hex_digits_text(n).len() == 2,
        256 <= n < 4096 ==> hex_digits_text(n).len() == 3,
        4096 <= n ==> hex_digits_text(n).len() >= 4,
    decreases n,
{
    if n >= 16 {
        lemma_hex_digits_len(n / 16);
    }
}

fn write_hex4(n: u32, out: &mut String)
    ensures
        final(out)@ == old(out)@ + hex4(n as nat),
{
    proof {
        lemma_hex_digits_len(n as nat);
    }
    let ghost start = out@;
    let pad: usize = if n < 16 {
        3
    } else if n < 256 {
        2
    } else if n < 4096 {
        1
    } else {
        0
    };
    let mut k: usize = 0;
    while k < pad
        invariant
            k <= pad <= 3,
            out@ == start + Seq::new(k as nat, |i: int| '0'),
        decreases pad - k,
    {
        push_char(out, '0');
        k = k + 1;
        assert(out@ =~= start + Seq::new(k as nat, |i: int| '0'));
    }
    let ghost padded = out@;
    write_hex_digits(n, out);
    assert(out@ =~= start + hex4(n as nat));
}

/// The wire form of a list of code points: one string of four-digit
/// uppercase hex groups joined by commas (a single code point has no comma).
pub fn serialize_comma_hexstring(value: &[u32]) -> (r: Plist)
    ensures
        plist_view(r) == PlistModel::String(comma_hex_text(value@)),
{
    let mut out = String::new();
    let mut i: usize = 0;
    while i < value.len()
        invariant
            i <= value@.len(),
            out@ == comma_hex_text(value@.take(i as int)),
        decreases value@.len() - i,
    {
        let ghost before = out@;
        if i > 0 {
            push_char(&mut out, ',');
        }
        write_hex4(value[i], &mut out);
        assert(value@.take(i + 1).drop_last() == value@.take(i as int));
        i = i + 1;
    }
    assert(value@.take(value@.len() as int) == value@);
    Plist::String(out)
}

/// The number of characters before the first comma of `t`.
pub open spec fn comma_run(t: Seq<char>) -> nat
    decreases t.len(),
{
    if t.len() > 0 && t[0] != ',' {
        1 + comma_run(t.drop_first())
    } else {
        0
    }
}

/// The index of the first comma at or after `i`, or the length.
pub open spec fn comma_index(s: Seq<char>, i: int) -> int {
    i + comma_run(s.subrange(i, s.len() as int))
}

pub open spec fn hex_digits_value(d: Seq<char>) -> nat
    decreases d.len(),
{
    if d.len() == 0 {
        0
    } else {
        hex_digits_value(d.drop_last()) * 16 + hex_value(d.last())
    }
}

pub open spec fn all_hex(d: Seq<char>) -> bool {
    forall|k: int| 0 <= k < d.len() ==> is_hex(#[trigger] d[k])
}

/// One hex group: an optional `+` and at least one hex digit, with a value
/// that fits in 32 bits.
pub open spec fn hex_part(p: Seq<char>) -> Option<u32> {
    let d = if p.len() > 0 && p[0] == '+' {
        p.drop_first()
    } else {
        p
    };
    if d.len() > 0 && all_hex(d) && hex_digits_value(d) <= u32::MAX {
        Some(hex_digits_value(d) as u32)
    } else {
        None
    }
}

/// The hex groups of `s` from index `i` on.
pub open spec fn hex_groups_from(s: Seq<char>, i: int) -> Option<Seq<u32>>
    decreases s.len() - i,
{
    if i < 0 || i > s.len() {
        None
    } else {
        let k = comma_index(s, i);
        match hex_part(s.subrange(i, k)) {
            None => None,
            Some(v) => if k >= s.len() {
                Some(seq![v])
            } else {
                match hex_groups_from(s, k + 1) {
                    Some(rest) => Some(seq![v] + rest),
                    None => None,
                }
            },
        }
    }
}

/// The code points of a comma-joined hex string; the empty string holds none.
pub open spec fn comma_hex_list(s: Seq<char>) -> Option<Seq<u32>> {
    if s.len() == 0 {
        Some(Seq::empty())
    } else {
        hex_groups_from(s, 0)
    }
}

fn is_hex_digit(c: char) -> (r: bool)
    ensures
        r == is_hex(c),
{
    ('0' <= c && c <= '9') || ('a' <= c && c <= 'f') || ('A' <= c && c <= 'F')
}

fn hex_digit_value(c: char) -> (r: u64)
    requires
        is_hex(c),
    ensures
        r == hex_value(c),
        r < 16,
{
    if '0' <= c && c <= '9' {
        (c as u32 - 48) as u64
    } else if 'a' <= c && c <= 'f' {
        (c as u32 - 87) as u64
    } else {
        (c as u32 - 55) as u64
    }
}

/// Reads one hex group `s[a..b]`.
fn hex_part_of(s: &Vec<char>, a: usize, b: usize) -> (r: Option<u32>)
    requires
        a <= b <= s@.len(),
    ensures
        r == hex_part(s@.subrange(a as int, b as int)),
{
    let ghost p = s@.subrange(a as int, b as int);
    let start: usize = if a < b && s[a] == '+' {
        a + 1
    } else {
        a
    };
    let ghost d = s@.subrange(start as int, b as int);
    assert(d == if p.len() > 0 && p[0] == '+' {
        p.drop_first()
    } else {
        p
    });
    if start >= b {
        assert(d.len() == 0);
        assert(p == s@.subrange(a as int, b as int));
        assert(hex_part(p) is None);
        return None;
    }
    let mut acc: u64 = 0;
    let mut k = start;
    while k < b
        invariant
            start <= k <= b <= s@.len(),
            d == s@.subrange(start as int, b as int),
            p == s@.subrange(a as int, b as int),
            d == if p.len() > 0 && p[0] == '+' {
                p.drop_first()
            } else {
                p
            },
            forall|j: int| 0 <= j < k - start ==> is_hex(#[trigger] d[j]),
            acc <= u32::MAX + 1,
            hex_digits_value(d.take(k - start)) <= u32::MAX ==> acc == hex_digits_value(
                d.take(k - start),
            ),
            hex_digits_value(d.take(k - start)) > u32::MAX ==> acc == u32::MAX + 1,
        decreases b - k,
    {
        let c = s[k];
        assert(d[k - start] == c);
        if !is_hex_digit(c) {
            assert(!all_hex(d));
            return None;
        }
        let v = hex_digit_value(c);
        assert(d.take(k - start + 1).drop_last() == d.take(k - start));
        if acc > u32::MAX as u64 {
            acc = u32::MAX as u64 + 1;
        } else {
            let wide = acc * 16 + v;
            if wide > u32::MAX as u64 {
                acc = u32::MAX as u64 + 1;
            } else {
                acc = wide;
            }
        }
        k = k + 1;
    }
    assert(d.take(d.len() as int) == d);
    if acc > u32::MAX as u64 {
        None
    } else {
        Some(acc as u32)
    }
}

/// Reads a list of code points: a comma-joined hex string, or a lone integer
/// whose decimal digits are the hex digits of a single code point (an
/// unquoted `0041` reaches the value tree as the integer 41).
pub fn deserialize_comma_hexstring(v: &Plist) -> (r: Result<Vec<u32>, DecodeError>)
    ensures
        match plist_view(*v) {
            PlistModel::String(s) => match comma_hex_list(s) {
                Some(xs) => r matches Ok(x) && x@ == xs,
                None => r is Err,
            },
            PlistModel::Integer(n) => if n >= 0 {
                match hex_part(nat_text(n as nat)) {
                    Some(c) => r matches Ok(x) && x@ == seq![c],
                    None => r is Err,
                }
            } else {
                r is Err
            },
            _ => r is Err,
        },
{
    match v {
        Plist::Integer(n) => {
            if *n < 0 {
                return Err(DecodeError::new(DecodeErrorKind::InvalidValue { reason: "code point out of range" }));
            }
            let mut digits = String::new();
            crate::ser::write_nat(*n as u64, &mut digits);
            assert(digits@ == nat_text(*n as nat));
            let cs = chars_of(digits.as_str());
            assert(cs@.subrange(0, cs@.len() as int) == cs@);
            match hex_part_of(&cs, 0, cs.len()) {
                Some(c) => {
                    let mut out: Vec<u32> = Vec::new();
                    out.push(c);
                    assert(out@ == seq![c]);
                    Ok(out)
                },
                None => Err(DecodeError::new(DecodeErrorKind::InvalidValue { reason: "code point out of range" })),
            }
        },
        Plist::String(text) => {
            assert(plist_view(*v) == PlistModel::String(text@));
            let s = crate::text::chars_of(text.as_str());
            let mut out: Vec<u32> = Vec::new();
            if s.len() == 0 {
                return Ok(out);
            }
            let mut i: usize = 0;
            loop
                invariant
                    i <= s@.len(),
                    s@ == text@,
                    s@.len() > 0,
                    plist_view(*v) == PlistModel::String(text@),
                    hex_groups_from(s@, 0) == match hex_groups_from(s@, i as int) {
                        Some(rest) => Some(out@ + rest),
                        None => None::<Seq<u32>>,
                    },
                decreases s@.len() - i,
            {
                let mut k = i;
                while k < s.len() && s[k] != ','
                    invariant
                        i <= k <= s@.len(),
                        comma_index(s@, k as int) == comma_index(s@, i as int),
                    decreases s@.len() - k,
                {
                    assert(s@.subrange(k as int, s@.len() as int).drop_first() == s@.subrange(
                        k + 1,
                        s@.len() as int,
                    ));
                    k = k + 1;
                }
                if k < s.len() {
                    assert(s@.subrange(k as int, s@.len() as int)[0] == s@[k as int]);
                }
                assert(comma_index(s@, k as int) == k);
                assert(comma_index(s@, i as int) == k);
                match hex_part_of(&s, i, k) {
                    None => {
                        assert(hex_groups_from(s@, i as int) is None);
                        assert(comma_hex_list(text@) is None);
                        return Err(DecodeError::new(DecodeErrorKind::InvalidValue { reason: "not a hex code point" }));
                    },
                    Some(cp) => {
                        let ghost before = out@;
                        out.push(cp);
                        if k >= s.len() {
                            assert(out@ == before + seq![cp]);
                            assert(hex_groups_from(s@, i as int) == Some(seq![cp]));
                            assert(comma_hex_list(text@) == Some(out@));
                            return Ok(out);
                        }
                        assert(out@ == before + seq![cp]);
                        proof {
                            match hex_groups_from(s@, k + 1) {
                                Some(rest) => {
                                    assert(before + (seq![cp] + rest) == out@ + rest);
                                },
                                None => {},
                            }
                        }
                        i = k + 1;
                    },
                }
            }
        },
        _ => Err(DecodeError::new(DecodeErrorKind::TypeMismatch { expected: "string" })),
    }
}

/// A crop rectangle of a background image, in whole pixels.
#[derive(Debug, Default, Clone, Copy, PartialEq, Eq, Structural)]
pub struct CropRect {
    pub top: i32,
    pub left: i32,
    pub bottom: i32,
    pub right: i32,
}

/// The nested-brace text of a crop rectangle: `{{top,left},{bottom, right}}`.
pub open spec fn crop_text(x: CropRect) -> Seq<char> {
    seq!['{', '{'] + int_text(x.top as int) + seq![','] + int_text(x.left as int) + seq![
        '}',
        ',',
        '{',
    ] + int_text(x.bottom as int) + seq![',', ' '] + int_text(x.right as int) + seq!['}', '}']
}

pub open spec fn is_crop_sep(c: char) -> bool {
    c == '{' || c == '}' || c == ','
}

/// The maximal runs of `t` whose characters agree on being a brace or a
/// comma, each with `true` when they are not.
pub open spec fn key_runs(t: Seq<char>) -> Seq<(bool, Seq<char>)>
    decreases t.len(),
{
    if t.len() == 0 {
        Seq::empty()
    } else {
        let r = key_runs(t.drop_last());
        let c = t.last();
        let k = !is_crop_sep(c);
        if r.len() > 0 && r.last().0 == k {
            r.update(r.len() - 1, (k, r.last().1.push(c)))
        } else {
            r.push((k, seq![c]))
        }
    }
}

/// The runs marked `true`, in order.
pub open spec fn number_runs(r: Seq<(bool, Seq<char>)>) -> Seq<Seq<char>>
    decreases r.len(),
{
    if r.len() == 0 {
        Seq::empty()
    } else {
        let prev = number_runs(r.drop_last());
        if r.last().0 {
            prev.push(r.last().1)
        } else {
            prev
        }
    }
}

/// The maximal runs of `t` that hold no brace and no comma.
pub open spec fn crop_groups(t: Seq<char>) -> Seq<Seq<char>> {
    number_runs(key_runs(t))
}

pub open spec fn runs_view(v: Seq<(bool, String)>) -> Seq<(bool, Seq<char>)> {
    v.map_values(|p: (bool, String)| (p.0, p.1@))
}

pub open spec fn strings_view(v: Seq<String>) -> Seq<Seq<char>> {
    v.map_values(|s: String| s@)
}

fn is_number_char(c: char) -> (r: bool)
    ensures
        r == !is_crop_sep(c),
{
    !(c == '{' || c == '}' || c == ',')
}

/// Relies on itertools' `chunk_by`: consecutive characters with the same key
/// form one run, the runs come in order, each with its key.
#[verifier::external_body]
fn runs_by_kind(s: &str) -> (r: Vec<(bool, String)>)
    ensures
        runs_view(r@) == key_runs(s@),
{
    let chunks = s.chars().chunk_by(|c| is_number_char(*c));
    chunks.into_iter().map(|(k, g)| (k, g.collect::<String>())).collect()
}

/// The runs of `s` that hold no brace and no comma.
fn crop_groups_of(s: &str) -> (r: Vec<String>)
    ensures
        strings_view(r@) == crop_groups(s@),
{
    let runs = runs_by_kind(s);
    let ghost rv = runs_view(runs@);
    let mut out: Vec<String> = Vec::new();
    let mut i: usize = 0;
    assert(strings_view(out@) =~= Seq::<Seq<char>>::empty());
    while i < runs.len()
        invariant
            i <= runs@.len(),
            rv == runs_view(runs@),
            rv == key_runs(s@),
            strings_view(out@) == number_runs(rv.take(i as int)),
        decreases runs@.len() - i,
    {
        assert(rv.take(i + 1).drop_last() == rv.take(i as int));
        assert(rv[i as int] == (runs@[i as int].0, runs@[i as int].1@));
        if runs[i].0 {
            let ghost before = out@;
            out.push(runs[i].1.clone());
            assert(strings_view(out@) =~= strings_view(before).push(runs@[i as int].1@));
        }
        i = i + 1;
    }
    assert(rv.take(rv.len() as int) == rv);
    out
}

/// `t` without whitespace at either end.
pub open spec fn trimmed(t: Seq<char>) -> Seq<char>
    decreases t.len(),
{
    if t.len() > 0 && is_ws(t[0]) {
        trimmed(t.drop_first())
    } else if t.len() > 0 && is_ws(t.last()) {
        trimmed(t.drop_last())
    } else {
        t
    }
}

/// An optional sign and at least one digit, with a value that fits in 32 bits.
pub open spec fn i32_token(t: Seq<char>) -> Option<i32> {
    let sl: int = if t.len() > 0 && (t[0] == '-' || t[0] == '+') {
        1
    } else {
        0
    };
    let d = t.subrange(sl, t.len() as int);
    let v: int = if sl == 1 && t[0] == '-' {
        -digits_value(d)
    } else {
        digits_value(d) as int
    };
    if d.len() > 0 && all_digits(d) && i32::MIN <= v <= i32::MAX {
        Some(v as i32)
    } else {
        None
    }
}

/// The first four runs of a crop-rectangle text, each trimmed and read as a
/// number: top, left, bottom and right.
pub open spec fn crop_of(s: Seq<char>) -> Option<CropRect> {
    let g = crop_groups(s);
    if g.len() >= 4 && i32_token(trimmed(g[0])) is Some && i32_token(trimmed(g[1])) is Some
        && i32_token(trimmed(g[2])) is Some && i32_token(trimmed(g[3])) is Some {
        Some(
            CropRect {
                top: i32_token(trimmed(g[0]))->Some_0,
                left: i32_token(trimmed(g[1]))->Some_0,
                bottom: i32_token(trimmed(g[2]))->Some_0,
                right: i32_token(trimmed(g[3]))->Some_0,
            },
        )
    } else {
        None
    }
}

pub(crate) fn trim_bounds(t: &Vec<char>) -> (r: (usize, usize))
    ensures
        r.0 <= r.1 <= t@.len(),
        t@.subrange(r.0 as int, r.1 as int) == trimmed(t@),
{
    let mut a: usize = 0;
    assert(t@.subrange(0, t@.len() as int) == t@);
    while a < t.len() && (t[a] == ' ' || t[a] == '\t' || t[a] == '\n' || t[a] == '\r')
        invariant
            a <= t@.len(),
            trimmed(t@.subrange(a as int, t@.len() as int)) == trimmed(t@),
        decreases t@.len() - a,
    {
        assert(t@.subrange(a as int, t@.len() as int).drop_first() == t@.subrange(
            a + 1,
            t@.len() as int,
        ));
        a = a + 1;
    }
    let mut b: usize = t.len();
    while b > a && (t[b - 1] == ' ' || t[b - 1] == '\t' || t[b - 1] == '\n' || t[b - 1] == '\r')
        invariant
            a <= b <= t@.len(),
            a < t@.len() ==> !is_ws(t@[a as int]),
            trimmed(t@.subrange(a as int, b as int)) == trimmed(t@),
        decreases b - a,
    {
        assert(t@.subrange(a as int, b as int)[0] == t@[a as int]);
        assert(t@.subrange(a as int, b as int).drop_last() == t@.subrange(a as int, b - 1));
        b = b - 1;
    }
    if a < b {
        assert(t@.subrange(a as int, b as int)[0] == t@[a as int]);
        assert(t@.subrange(a as int, b as int).last() == t@[b - 1]);
    }
    (a, b)
}

fn i32_of_chars(t: &Vec<char>, a: usize, b: usize) -> (r: Option<i32>)
    requires
        a <= b <= t@.len(),
    ensures
        r == i32_token(t@.subrange(a as int, b as int)),
{
    let ghost u = t@.subrange(a as int, b as int);
    let signed = a < b && (t[a] == '-' || t[a] == '+');
    let start = if signed {
        a + 1
    } else {
        a
    };
    let negative = signed && t[a] == '-';
    assert(u.subrange(if signed {
        1int
    } else {
        0int
    }, u.len() as int) == t@.subrange(start as int, b as int));
    if start >= b {
        return None;
    }
    match crate::parse::digits_capped(t, start, b) {
        None => None,
        Some(v) => {
            if negative && v <= 2147483648 {
                Some((-(v as i64)) as i32)
            } else if !negative && v <= 2147483647 {
                Some(v as i32)
            } else {
                None
            }
        },
    }
}

impl CropRect {
    pub fn new(top: i32, left: i32, bottom: i32, right: i32) -> (r: CropRect)
        ensures
            r == (CropRect { top, left, bottom, right }),
    {
        CropRect { top, left, bottom, right }
    }

    /// The wire form: one string with nested braces.
    pub fn to_plist(&self) -> (r: Plist)
        ensures
            plist_view(r) == PlistModel::String(crop_text(*self)),
    {
        let mut out = String::new();
        push_char(&mut out, '{');
        push_char(&mut out, '{');
        crate::ser::write_int(self.top as i64, &mut out);
        push_char(&mut out, ',');
        crate::ser::write_int(self.left as i64, &mut out);
        push_char(&mut out, '}');
        push_char(&mut out, ',');
        push_char(&mut out, '{');
        crate::ser::write_int(self.bottom as i64, &mut out);
        push_char(&mut out, ',');
        push_char(&mut out, ' ');
        crate::ser::write_int(self.right as i64, &mut out);
        push_char(&mut out, '}');
        push_char(&mut out, '}');
        assert(out@ =~= crop_text(*self));
        Plist::String(out)
    }

    /// Reads the first four numbers of a nested-brace string.
    pub fn from_plist(v: &Plist) -> (r: Result<CropRect, DecodeError>)
        ensures
            match plist_view(*v) {
                PlistModel::String(s) => match crop_of(s) {
                    Some(x) => r == Ok::<CropRect, DecodeError>(x),
                    None => r is Err && crop_error_is(r->Err_0, s),
                },
                _ => r is Err,
            },
    {
        let text = match v {
            Plist::String(text) => text,
            _ => {
                return Err(DecodeError::new(DecodeErrorKind::TypeMismatch { expected: "string" }));
            },
        };
        let g = crop_groups_of(text.as_str());
        let mut nums: Vec<i32> = Vec::new();
        let mut i: usize = 0;
        while i < 4
            invariant
                i <= 4,
                strings_view(g@) == crop_groups(text@),
                plist_view(*v) == PlistModel::String(text@),
                nums@.len() == i,
                i <= g@.len(),
                forall|j: int| 0 <= j < i ==> i32_token(trimmed(crop_groups(text@)[j])) == Some(
                    #[trigger] nums@[j],
                ),
                first_crop_failure(crop_groups(text@), 0) == first_crop_failure(
                    crop_groups(text@),
                    i as int,
                ),
            decreases 4 - i,
        {
            if i >= g.len() {
                assert(first_crop_failure(crop_groups(text@), i as int) == i);
                return Err(DecodeError::new(DecodeErrorKind::InvalidValue { reason: missing_reason(i) }));
            }
            assert(strings_view(g@)[i as int] == g@[i as int]@);
            let cs = chars_of(g[i].as_str());
            let (a, b) = trim_bounds(&cs);
            match i32_of_chars(&cs, a, b) {
                Some(n) => {
                    nums.push(n);
                },
                None => {
                    assert(first_crop_failure(crop_groups(text@), i as int) == i);
                    return Err(DecodeError::new(DecodeErrorKind::InvalidValue { reason: bad_reason(i) }));
                },
            }
            i = i + 1;
        }
        Ok(CropRect { top: nums[0], left: nums[1], bottom: nums[2], right: nums[3] })
    }
}

/// The first of the four numbers, from `j` on, that is missing or unreadable,
/// or 4 when there is none.
pub open spec fn first_crop_failure(g: Seq<Seq<char>>, j: int) -> int
    decreases 4 - j,
{
    if j >= 4 {
        4
    } else if j >= g.len() || i32_token(trimmed(g[j])) is None {
        j
    } else {
        first_crop_failure(g, j + 1)
    }
}

pub open spec fn crop_field_reason(i: int, missing: bool) -> Seq<char> {
    if missing {
        if i == 0 {
            "missing top"@
        } else if i == 1 {
            "missing left"@
        } else if i == 2 {
            "missing bottom"@
        } else {
            "missing right"@
        }
    } else {
        if i == 0 {
            "top not a number"@
        } else if i == 1 {
            "left not a number"@
        } else if i == 2 {
            "bottom not a number"@
        } else {
            "right not a number"@
        }
    }
}

/// The error names the first field, in the order top, left, bottom, right,
/// that is missing or is not a number.
pub open spec fn crop_error_is(e: DecodeError, s: Seq<char>) -> bool {
    let g = crop_groups(s);
    let i = first_crop_failure(g, 0);
    &&& e.path@.len() == 0
    &&& match e.kind {
        DecodeErrorKind::InvalidValue { reason } => i < 4 && reason@ == crop_field_reason(
            i,
            i >= g.len(),
        ),
        _ => false,
    }
}

fn missing_reason(i: usize) -> (r: &'static str)
    requires
        i < 4,
    ensures
        r@ == crop_field_reason(i as int, true),
{
    if i == 0 {
        "missing top"
    } else if i == 1 {
        "missing left"
    } else if i == 2 {
        "missing bottom"
    } else {
        "missing right"
    }
}

fn bad_reason(i: usize) -> (r: &'static str)
    requires
        i < 4,
    ensures
        r@ == crop_field_reason(i as int, false),
{
    if i == 0 {
        "top not a number"
    } else if i == 1 {
        "left not a number"
    } else if i == 2 {
        "bottom not a number"
    } else {
        "right not a number"
    }
}

proof fn lemma_upper_hex_char(d: int)
    requires
        0 <= d < 16,
    ensures
        is_hex(upper_hex_char(d)),
        hex_value(upper_hex_char(d)) == d,
        upper_hex_char(d) != ',',
        upper_hex_char(d) != '+',
{
    if d < 10 {
        assert(((d + 48) as u8) as char as nat == d + 48);
    } else {
        assert(((d - 10 + 65) as u8) as char as nat == d - 10 + 65);
    }
}

proof fn lemma_hex_digits_text(n: nat)
    ensures
        hex_digits_text(n).len() >= 1,
        forall|i: int| 0 <= i < hex_digits_text(n).len() ==> is_hex(#[trigger] hex_digits_text(n)[i])
            && hex_digits_text(n)[i] != ',' && hex_digits_text(n)[i] != '+',
        hex_digits_value(hex_digits_text(n)) == n,
    decreases n,
{
    lemma_upper_hex_char((n % 16) as int);
    let t = hex_digits_text(n);
    if n < 16 {
        assert(t.drop_last() =~= Seq::<char>::empty());
        assert(hex_digits_value(t) == hex_digits_value(Seq::<char>::empty()) * 16 + n);
    } else {
        lemma_hex_digits_text(n / 16);
        let u = hex_digits_text(n / 16);
        assert(t.drop_last() == u);
        assert(forall|i: int| 0 <= i < u.len() ==> t[i] == u[i]);
    }
}

proof fn lemma_zeros_value(z: nat, t: Seq<char>)
    ensures
        hex_digits_value(Seq::new(z, |i: int| '0') + t) == hex_digits_value(t),
    decreases t.len(), z,
{
    let zs = Seq::new(z, |i: int| '0');
    if t.len() == 0 {
        assert(zs + t == zs);
        if z > 0 {
            let zs1 = Seq::new((z - 1) as nat, |i: int| '0');
            assert(zs.drop_last() == zs1);
            assert(hex_value('0') == 0);
            lemma_zeros_value((z - 1) as nat, t);
            assert(zs1 + t == zs1);
        }
    } else {
        assert((zs + t).drop_last() == zs + t.drop_last());
        lemma_zeros_value(z, t.drop_last());
    }
}

proof fn lemma_hex4(n: nat)
    requires
        n <= u32::MAX,
    ensures
        hex4(n).len() >= 1,
        forall|i: int| 0 <= i < hex4(n).len() ==> #[trigger] hex4(n)[i] != ',',
        hex_part(hex4(n)) == Some(n as u32),
{
    lemma_hex_digits_text(n);
    let t = hex_digits_text(n);
    let h = hex4(n);
    if t.len() < 4 {
        let z = (4 - t.len()) as nat;
        lemma_zeros_value(z, t);
        assert(hex_value('0') == 0 && is_hex('0'));
        assert forall|i: int| 0 <= i < h.len() implies is_hex(#[trigger] h[i]) && h[i] != ',' && h[i]
            != '+' by {
            if i >= z {
                assert(h[i] == t[i - z]);
            }
        }
    }
    assert(h[0] != '+');
    assert(all_hex(h));
}

proof fn lemma_comma_hex_front(xs: Seq<u32>)
    requires
        xs.len() >= 1,
    ensures
        comma_hex_text(xs) == if xs.len() == 1 {
            hex4(xs[0] as nat)
        } else {
            hex4(xs[0] as nat) + seq![','] + comma_hex_text(xs.drop_first())
        },
    decreases xs.len(),
{
    if xs.len() > 2 {
        lemma_comma_hex_front(xs.drop_last());
        assert(xs.drop_last().drop_first() == xs.drop_first().drop_last());
        assert(xs.drop_first().last() == xs.last());
        assert(xs.drop_last()[0] == xs[0]);
        let a = hex4(xs[0] as nat);
        let mid = comma_hex_text(xs.drop_first().drop_last());
        let z = hex4(xs.last() as nat);
        assert(comma_hex_text(xs) == a + seq![','] + mid + seq![','] + z);
        assert(comma_hex_text(xs.drop_first()) == mid + seq![','] + z);
        assert(comma_hex_text(xs) =~= a + seq![','] + comma_hex_text(xs.drop_first()));
    } else if xs.len() == 2 {
        assert(xs.drop_last() == seq![xs[0]]);
        assert(xs.drop_first() == seq![xs[1]]);
        assert(comma_hex_text(xs.drop_first()) == hex4(xs[1] as nat));
        assert(comma_hex_text(xs.drop_last()) == hex4(xs[0] as nat));
        assert(xs.last() == xs[1]);
        assert(comma_hex_text(xs) == hex4(xs[0] as nat) + seq![','] + hex4(xs[1] as nat));
    }
}

pub(crate) proof fn lemma_comma_run_prefix(h: Seq<char>, rest: Seq<char>)
    requires
        forall|i: int| 0 <= i < h.len() ==> #[trigger] h[i] != ',',
        rest.len() == 0 || rest[0] == ',',
    ensures
        comma_run(h + rest) == h.len(),
    decreases h.len(),
{
    if h.len() == 0 {
        assert(h + rest == rest);
    } else {
        assert((h + rest).drop_first() == h.drop_first() + rest);
        lemma_comma_run_prefix(h.drop_first(), rest);
    }
}

pub(crate) proof fn lemma_comma_run_bound(t: Seq<char>)
    ensures
        comma_run(t) <= t.len(),
    decreases t.len(),
{
    if t.len() > 0 && t[0] != ',' {
        lemma_comma_run_bound(t.drop_first());
    }
}

proof fn lemma_groups_shift(p: Seq<char>, b: Seq<char>, j: int)
    requires
        0 <= j <= b.len(),
    ensures
        hex_groups_from(p + b, p.len() + j) == hex_groups_from(b, j),
    decreases b.len() - j,
{
    let s = p + b;
    let i = p.len() + j;
    assert(s.subrange(i, s.len() as int) == b.subrange(j, b.len() as int));
    let k = comma_index(b, j);
    lemma_comma_run_bound(b.subrange(j, b.len() as int));
    assert(comma_index(s, i) == p.len() + k);
    assert(s.subrange(i, p.len() + k) =~= b.subrange(j, k));
    if k < b.len() {
        lemma_groups_shift(p, b, k + 1);
    }
}

/// Decoding the text of a list of code points gives the list back.
pub proof fn lemma_comma_hex_round_trip(xs: Seq<u32>)
    ensures
        comma_hex_list(comma_hex_text(xs)) == Some(xs),
    decreases xs.len(),
{
    if xs.len() > 0 {
        lemma_comma_hex_front(xs);
        lemma_hex4(xs[0] as nat);
        let h = hex4(xs[0] as nat);
        let t = comma_hex_text(xs);
        if xs.len() == 1 {
            assert(h + Seq::<char>::empty() == h);
            lemma_comma_run_prefix(h, Seq::empty());
            assert(t.subrange(0, t.len() as int) == t);
            assert(xs == seq![xs[0]]);
        } else {
            let rest = comma_hex_text(xs.drop_first());
            lemma_comma_run_prefix(h, seq![','] + rest);
            assert(t == h + (seq![','] + rest));
            assert(t.subrange(0, t.len() as int) == t);
            assert(t.subrange(0, h.len() as int) == h);
            lemma_comma_hex_round_trip(xs.drop_first());
            lemma_comma_hex_nonempty(xs.drop_first());
            assert(t == (h + seq![',']) + rest);
            lemma_groups_shift(h + seq![','], rest, 0);
            assert(seq![xs[0]] + xs.drop_first() == xs);
        }
    }
}

proof fn lemma_comma_hex_nonempty(xs: Seq<u32>)
    requires
        xs.len() >= 1,
    ensures
        comma_hex_text(xs).len() > 0,
{
    lemma_comma_hex_front(xs);
    lemma_hex4(xs[0] as nat);
}

pub open spec fn run_key(c: char) -> bool {
    !is_crop_sep(c)
}

/// Every character of `t` has the key `k`.
pub open spec fn uniform(t: Seq<char>, k: bool) -> bool {
    forall|i: int| 0 <= i < t.len() ==> run_key(#[trigger] t[i]) == k
}

proof fn lemma_key_runs_last(t: Seq<char>)
    requires
        t.len() > 0,
    ensures
        key_runs(t).len() > 0,
        key_runs(t).last().0 == run_key(t.last()),
    decreases t.len(),
{
    if t.len() > 1 {
        lemma_key_runs_last(t.drop_last());
    }
}

proof fn lemma_key_runs_single(c: char)
    ensures
        key_runs(seq![c]) == seq![(run_key(c), seq![c])],
{
    let t = seq![c];
    assert(t.drop_last() =~= Seq::<char>::empty());
    assert(key_runs(Seq::<char>::empty()) =~= Seq::<(bool, Seq<char>)>::empty());
    assert(t.last() == c);
    assert(Seq::<(bool, Seq<char>)>::empty().push((run_key(c), seq![c])) =~= seq![(run_key(c), seq![c])]);
}

proof fn lemma_key_runs_uniform(t: Seq<char>, k: bool)
    requires
        t.len() > 0,
        uniform(t, k),
    ensures
        key_runs(t) == seq![(k, t)],
    decreases t.len(),
{
    if t.len() == 1 {
        assert(t =~= seq![t[0]]);
        lemma_key_runs_single(t[0]);
    } else {
        let u = t.drop_last();
        assert(uniform(u, k)) by {
            assert forall|i: int| 0 <= i < u.len() implies run_key(#[trigger] u[i]) == k by {
                assert(u[i] == t[i]);
            }
        }
        lemma_key_runs_uniform(u, k);
        assert(u.push(t.last()) == t);
        assert(run_key(t.last()) == k);
        assert(seq![(k, u)].update(0, (k, u.push(t.last()))) =~= seq![(k, t)]);
    }
}

/// Runs do not merge across a change of key.
proof fn lemma_key_runs_concat(u: Seq<char>, w: Seq<char>)
    requires
        u.len() > 0,
        w.len() > 0,
        run_key(u.last()) != run_key(w[0]),
    ensures
        key_runs(u + w) == key_runs(u) + key_runs(w),
    decreases w.len(),
{
    lemma_key_runs_last(u);
    if w.len() == 1 {
        assert((u + w).drop_last() == u);
        assert((u + w).last() == w[0]);
        assert(w =~= seq![w[0]]);
        lemma_key_runs_single(w[0]);
        assert(key_runs(u).push((run_key(w[0]), seq![w[0]])) =~= key_runs(u) + key_runs(w));
    } else {
        let w2 = w.drop_last();
        assert((u + w).drop_last() == u + w2);
        assert((u + w).last() == w.last());
        assert(w2[0] == w[0]);
        lemma_key_runs_concat(u, w2);
        lemma_key_runs_last(w2);
        let r = key_runs(u) + key_runs(w2);
        assert(r.last() == key_runs(w2).last());
        let c = w.last();
        if key_runs(w2).last().0 == run_key(c) {
            assert(r.update(r.len() - 1, (run_key(c), r.last().1.push(c))) =~= key_runs(u)
                + key_runs(w2).update(key_runs(w2).len() - 1, (run_key(c), key_runs(w2).last().1.push(c))));
        } else {
            assert(r.push((run_key(c), seq![c])) =~= key_runs(u) + key_runs(w2).push((run_key(c), seq![c])));
        }
    }
}

proof fn lemma_number_runs_concat(a: Seq<(bool, Seq<char>)>, b: Seq<(bool, Seq<char>)>)
    ensures
        number_runs(a + b) == number_runs(a) + number_runs(b),
    decreases b.len(),
{
    if b.len() == 0 {
        assert(a + b == a);
        assert(number_runs(a) + number_runs(b) =~= number_runs(a));
    } else {
        assert((a + b).drop_last() == a + b.drop_last());
        assert((a + b).last() == b.last());
        lemma_number_runs_concat(a, b.drop_last());
        if b.last().0 {
            assert(number_runs(a) + number_runs(b.drop_last()).push(b.last().1) =~= (number_runs(a)
                + number_runs(b.drop_last())).push(b.last().1));
        }
    }
}

proof fn lemma_int_text_digits(n: int)
    requires
        i32::MIN <= n <= i32::MAX,
    ensures
        int_text(n).len() > 0,
        uniform(int_text(n), true),
        !is_ws(int_text(n)[0]),
        !is_ws(int_text(n).last()),
        i32_token(int_text(n)) == Some(n as i32),
{
    let m = crate::ser::abs(n);
    crate::laws::lemma_nat_text_facts(m);
    let d = nat_text(m);
    let t = int_text(n);
    assert(crate::parse_spec::is_digit(d[0]));
    assert(crate::parse_spec::is_digit(d.last()));
    if n < 0 {
        assert(t.subrange(1, t.len() as int) == d);
        assert(t.last() == d.last());
    } else {
        assert(t.subrange(0, t.len() as int) == d);
    }
    assert forall|i: int| 0 <= i < t.len() implies run_key(#[trigger] t[i]) == true by {
        if n < 0 && i > 0 {
            assert(t[i] == d[i - 1]);
            assert(crate::parse_spec::is_digit(d[i - 1]));
        } else if n >= 0 {
            assert(crate::parse_spec::is_digit(d[i]));
        }
    }
}

proof fn lemma_trimmed_plain(t: Seq<char>)
    requires
        t.len() > 0,
        !is_ws(t[0]),
        !is_ws(t.last()),
    ensures
        trimmed(t) == t,
{
}

/// Decoding the text of a crop rectangle gives the same rectangle back.
pub proof fn lemma_crop_round_trip(x: CropRect)
    ensures
        crop_of(crop_text(x)) == Some(x),
{
    let t = int_text(x.top as int);
    let l = int_text(x.left as int);
    let b = int_text(x.bottom as int);
    let r = seq![' '] + int_text(x.right as int);
    lemma_int_text_digits(x.top as int);
    lemma_int_text_digits(x.left as int);
    lemma_int_text_digits(x.bottom as int);
    lemma_int_text_digits(x.right as int);
    assert(uniform(r, true)) by {
        assert forall|i: int| 0 <= i < r.len() implies run_key(#[trigger] r[i]) == true by {
            if i > 0 {
                assert(r[i] == int_text(x.right as int)[i - 1]);
            }
        }
    }
    let s1 = seq!['{', '{'];
    let s2 = seq![','];
    let s3 = seq!['}', ',', '{'];
    let s4 = seq![','];
    let s5 = seq!['}', '}'];
    assert(uniform(s1, false) && uniform(s2, false) && uniform(s3, false) && uniform(s4, false)
        && uniform(s5, false));
    let text = crop_text(x);
    assert(text =~= s1 + t + s2 + l + s3 + b + s4 + r + s5);
    lemma_key_runs_uniform(s1, false);
    lemma_key_runs_uniform(t, true);
    lemma_key_runs_uniform(s2, false);
    lemma_key_runs_uniform(l, true);
    lemma_key_runs_uniform(s3, false);
    lemma_key_runs_uniform(b, true);
    lemma_key_runs_uniform(s4, false);
    lemma_key_runs_uniform(r, true);
    lemma_key_runs_uniform(s5, false);
    let p1 = s1 + t;
    let p2 = p1 + s2;
    let p3 = p2 + l;
    let p4 = p3 + s3;
    let p5 = p4 + b;
    let p6 = p5 + s4;
    let p7 = p6 + r;
    assert(run_key(t[0]) && run_key(t.last()) && run_key(l[0]) && run_key(l.last()));
    assert(run_key(b[0]) && run_key(b.last()) && run_key(r[0]) && run_key(r.last()));
    lemma_key_runs_concat(s1, t);
    lemma_key_runs_concat(p1, s2);
    lemma_key_runs_concat(p2, l);
    lemma_key_runs_concat(p3, s3);
    lemma_key_runs_concat(p4, b);
    lemma_key_runs_concat(p5, s4);
    lemma_key_runs_concat(p6, r);
    lemma_key_runs_concat(p7, s5);
    let runs = seq![(false, s1), (true, t), (false, s2), (true, l), (false, s3), (true, b), (
        false,
        s4,
    ), (true, r), (false, s5)];
    assert(key_runs(text) =~= runs);
    let g = seq![t, l, b, r];
    assert(number_runs(runs) == g) by {
        reveal_with_fuel(number_runs, 10);
        assert(runs.drop_last() =~= seq![(false, s1), (true, t), (false, s2), (true, l), (false, s3), (true, b), (false, s4), (true, r)]);
    }
    lemma_trimmed_plain(t);
    lemma_trimmed_plain(l);
    lemma_trimmed_plain(b);
    let rt = int_text(x.right as int);
    assert(r.drop_first() == rt);
    lemma_trimmed_plain(rt);
    assert(trimmed(r) == trimmed(rt));
}

} // verus!
