use vstd::prelude::*;

verus! {

/// Characters that make up a number: ASCII digits, `.` and `-`.
pub open spec fn is_numeric_char(c: char) -> bool {
    ('0' <= c && c <= '9') || c == '.' || c == '-'
}

/// Characters accepted in an unquoted token by the parser.
pub open spec fn is_alnum_char(c: char) -> bool {
    is_numeric_char(c) || ('a' <= c && c <= 'z') || ('A' <= c && c <= 'Z') || c == '_' || c == '$'
        || c == '/' || c == ':'
}

/// Characters that the serializer writes without quotes.
pub open spec fn is_alnum_strict_char(c: char) -> bool {
    ('0' <= c && c <= '9') || ('a' <= c && c <= 'z') || ('A' <= c && c <= 'Z') || c == '_' || c
        == '$' || c == '.'
}

pub fn is_numeric(c: char) -> (r: bool)
    ensures
        r == is_numeric_char(c),
{
    ('0' <= c && c <= '9') || c == '.' || c == '-'
}

pub fn is_alnum(c: char) -> (r: bool)
    ensures
        r == is_alnum_char(c),
{
    is_numeric(c) || ('a' <= c && c <= 'z') || ('A' <= c && c <= 'Z') || c == '_' || c == '$'
        || c == '/' || c == ':'
}

pub fn is_alnum_strict(c: char) -> (r: bool)
    ensures
        r == is_alnum_strict_char(c),
{
    ('0' <= c && c <= '9') || ('a' <= c && c <= 'z') || ('A' <= c && c <= 'Z') || c == '_' || c
        == '$' || c == '.'
}

/// Relies on `String::push`: appends one character.
#[verifier::external_body]
pub(crate) fn push_char(s: &mut String, c: char)
    ensures
        final(s)@ == old(s)@.push(c),
{
    s.push(c)
}

/// The characters of `s`, in order.
pub fn chars_of(s: &str) -> (r: Vec<char>)
    ensures
        r@ == s@,
{
    let mut r: Vec<char> = Vec::new();
    for c in it: s.chars()
        invariant
            r@ == it.seq().take(it.index() as int),
    {
        r.push(c);
    }
    r
}

/// A `String` holding the characters of `cs`.
pub fn string_of(cs: &[char]) -> (r: String)
    ensures
        r@ == cs@,
{
    let mut r = String::new();
    let mut i: usize = 0;
    while i < cs.len()
        invariant
            i <= cs@.len(),
            r@ == cs@.take(i as int),
        decreases cs@.len() - i,
    {
        push_char(&mut r, cs[i]);
        i = i + 1;
        assert(cs@.take(i as int) == cs@.take(i - 1).push(cs@[i - 1]));
    }
    assert(cs@.take(cs@.len() as int) == cs@);
    r
}

/// Whether `s` holds exactly the text `lit`.
pub fn text_is(s: &String, lit: &str) -> (r: bool)
    ensures
        r == (s@ == lit@),
{
    *s == String::from_str(lit)
}

/// The characters with the Unicode `White_Space` property.
pub open spec fn is_unicode_ws(c: char) -> bool {
    let v = c as u32;
    (0x09 <= v && v <= 0x0D) || v == 0x20 || v == 0x85 || v == 0xA0 || v == 0x1680 || (0x2000 <= v
        && v <= 0x200A) || v == 0x2028 || v == 0x2029 || v == 0x202F || v == 0x205F || v == 0x3000
}

pub fn is_whitespace(c: char) -> (r: bool)
    ensures
        r == is_unicode_ws(c),
{
    let v = c as u32;
    (0x09 <= v && v <= 0x0D) || v == 0x20 || v == 0x85 || v == 0xA0 || v == 0x1680 || (0x2000 <= v
        && v <= 0x200A) || v == 0x2028 || v == 0x2029 || v == 0x202F || v == 0x205F || v == 0x3000
}

/// `t` without Unicode whitespace at either end.
pub open spec fn trim_ws(t: Seq<char>) -> Seq<char>
    decreases t.len(),
{
    if t.len() > 0 && is_unicode_ws(t[0]) {
        trim_ws(t.drop_first())
    } else if t.len() > 0 && is_unicode_ws(t.last()) {
        trim_ws(t.drop_last())
    } else {
        t
    }
}

/// The characters of `t` without Unicode whitespace at either end.
pub fn trim_chars(t: &Vec<char>) -> (r: Vec<char>)
    ensures
        r@ == trim_ws(t@),
{
    let mut a: usize = 0;
    assert(t@.subrange(0, t@.len() as int) == t@);
    while a < t.len() && is_whitespace(t[a])
        invariant
            a <= t@.len(),
            trim_ws(t@.subrange(a as int, t@.len() as int)) == trim_ws(t@),
        decreases t@.len() - a,
    {
        assert(t@.subrange(a as int, t@.len() as int).drop_first() == t@.subrange(
            a + 1,
            t@.len() as int,
        ));
        a = a + 1;
    }
    let mut b: usize = t.len();
    while b > a && is_whitespace(t[b - 1])
        invariant
            a <= b <= t@.len(),
            a < t@.len() ==> !is_unicode_ws(t@[a as int]),
            trim_ws(t@.subrange(a as int, b as int)) == trim_ws(t@),
        decreases b - a,
    {
        assert(t@.subrange(a as int, b as int)[0] == t@[a as int]);
        assert(t@.subrange(a as int, b as int).drop_last() == t@.subrange(a as int, b - 1));
        b = b - 1;
    }
    if a < b {
        assert(t@.subrange(a as int, b as int)[0] == t@[a as int]);
        assert(t@.subrange(a as int, b as int).last() == t@[b - 1]);
    }
    let mut r: Vec<char> = Vec::new();
    let mut k = a;
    while k < b
        invariant
            a <= k <= b <= t@.len(),
            r@ == t@.subrange(a as int, k as int),
        decreases b - k,
    {
        r.push(t[k]);
        k = k + 1;
        assert(r@ == t@.subrange(a as int, k as int));
    }
    r
}

} // verus!
