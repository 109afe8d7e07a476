use vstd::prelude::*;

use crate::parse::utf8_width;
use crate::text::{chars_of, push_char, string_of, text_is};

verus! {

/// What `char::to_lowercase` yields for a character.
pub uninterp spec fn lower_char_of(c: char) -> Seq<char>;

/// What `str::to_lowercase` yields for a text.
pub uninterp spec fn lower_str_of(s: Seq<char>) -> Seq<char>;

/// Relies on `char::to_lowercase`: the lowercase mapping of one character,
/// which depends on the character alone; ASCII letters map to their small
/// letters and other ASCII characters to themselves.
#[verifier::external_body]
fn char_lowercase(c: char) -> (r: String)
    ensures
        r@ == lower_char_of(c),
        'A' <= c <= 'Z' ==> r@ == seq![((c as u32) + 32) as char],
        (c as u32) < 128 && !('A' <= c <= 'Z') ==> r@ == seq![c],
{
    c.to_lowercase().collect()
}

/// A character with ASCII capitals mapped to small letters.
pub open spec fn ascii_lower(c: char) -> char {
    if 'A' <= c <= 'Z' {
        ((c as u32) + 32) as char
    } else {
        c
    }
}

/// Relies on `str::to_lowercase`: the lowercase mapping of a text, which
/// depends on the text alone; an ASCII text has its capitals mapped to small
/// letters and keeps its other characters.
#[verifier::external_body]
fn str_lowercase(s: &str) -> (r: String)
    ensures
        r@ == lower_str_of(s@),
        (forall|i: int| 0 <= i < s@.len() ==> (#[trigger] s@[i] as u32) < 128) ==> r@ == Seq::new(
            s@.len(),
            |i: int| ascii_lower(s@[i]),
        ),
{
    s.to_lowercase()
}

/// Characters that may not stand in a file name.
pub open spec fn is_illegal(c: char) -> bool {
    c == '"' || c == '*' || c == '+' || c == '/' || c == ':' || c == '<' || c == '>' || c == '?'
        || c == '[' || c == '\\' || c == ']' || c == '|' || (c as u32) < 0x20 || (c as u32)
        == 0x7F
}

/// Illegal characters become `_`; a character that lowercasing changes is
/// followed by `_`.
pub open spec fn filtered(t: Seq<char>) -> Seq<char>
    decreases t.len(),
{
    if t.len() == 0 {
        Seq::empty()
    } else {
        let c = t.last();
        filtered(t.drop_last()) + if is_illegal(c) {
            seq!['_']
        } else if lower_char_of(c) != seq![c] {
            seq![c, '_']
        } else {
            seq![c]
        }
    }
}

/// The longest prefix of `t` whose UTF-8 form fits in `budget` bytes.
pub open spec fn prefix_within(t: Seq<char>, budget: int) -> Seq<char>
    decreases t.len(),
{
    if t.len() == 0 || utf8_width(t[0]) > budget {
        Seq::empty()
    } else {
        seq![t[0]] + prefix_within(t.drop_first(), budget - utf8_width(t[0]))
    }
}

/// Names that some file systems reserve.
pub open spec fn is_reserved(s: Seq<char>) -> bool {
    s == "con"@ || s == "prn"@ || s == "aux"@ || s == "clock$"@ || s == "nul"@ || s == "com1"@
        || s == "com2"@ || s == "com3"@ || s == "com4"@ || s == "lpt1"@ || s == "lpt2"@ || s
        == "lpt3"@ || s == "a:-z:"@
}

pub open spec fn fixed_part(p: Seq<char>) -> Seq<char> {
    if is_reserved(lower_str_of(p)) {
        seq!['_'] + p
    } else {
        p
    }
}

pub open spec fn dot_run(t: Seq<char>) -> nat
    decreases t.len(),
{
    if t.len() > 0 && t[0] != '.' {
        1 + dot_run(t.drop_first())
    } else {
        0
    }
}

/// The dot-separated parts of `t` from index `i` on, each with a reserved
/// name escaped, joined by dots again.
pub open spec fn fixed_parts_from(t: Seq<char>, i: int) -> Seq<char>
    decreases t.len() - i,
{
    if i < 0 || i > t.len() {
        Seq::empty()
    } else {
        let k = i + dot_run(t.subrange(i, t.len() as int));
        if k >= t.len() {
            fixed_part(t.subrange(i, k))
        } else {
            fixed_part(t.subrange(i, k)) + seq!['.'] + fixed_parts_from(t, k + 1)
        }
    }
}

/// The file name for a glyph name: a leading `.` becomes `_`, the characters
/// are filtered, the result is cut to 255 bytes, and reserved names among its
/// dot-separated parts get a leading `_`.
pub open spec fn file_name_of(name: Seq<char>) -> Seq<char> {
    let u = if name.len() > 0 && name[0] == '.' {
        seq!['_'] + name.drop_first()
    } else {
        name
    };
    fixed_parts_from(prefix_within(filtered(u), 255), 0)
}

fn is_illegal_char(c: char) -> (r: bool)
    ensures
        r == is_illegal(c),
{
    c == '"' || c == '*' || c == '+' || c == '/' || c == ':' || c == '<' || c == '>' || c == '?'
        || c == '[' || c == '\\' || c == ']' || c == '|' || (c as u32) < 0x20 || (c as u32)
        == 0x7F
}

fn reserved(s: &String) -> (r: bool)
    ensures
        r == is_reserved(s@),
{
    text_is(s, "con") || text_is(s, "prn") || text_is(s, "aux") || text_is(s, "clock$") || text_is(
        s,
        "nul",
    ) || text_is(s, "com1") || text_is(s, "com2") || text_is(s, "com3") || text_is(s, "com4")
        || text_is(s, "lpt1") || text_is(s, "lpt2") || text_is(s, "lpt3") || text_is(s, "a:-z:")
}

fn utf8_len_of(c: char) -> (r: usize)
    ensures
        r == utf8_width(c),
{
    let v = c as u32;
    if v < 0x80 {
        1
    } else if v < 0x800 {
        2
    } else if v < 0x10000 {
        3
    } else {
        4
    }
}

proof fn lemma_filtered_step(t: Seq<char>, i: int)
    requires
        0 <= i < t.len(),
    ensures
        filtered(t.take(i + 1)) == filtered(t.take(i)) + if is_illegal(t[i]) {
            seq!['_']
        } else if lower_char_of(t[i]) != seq![t[i]] {
            seq![t[i], '_']
        } else {
            seq![t[i]]
        },
{
    assert(t.take(i + 1).drop_last() == t.take(i));
}

/// The file name under which a glyph is stored in a package directory.
pub fn user_name_to_file_name(name: &str) -> (r: String)
    ensures
        r@ == file_name_of(name@),
{
    let mut u = chars_of(name);
    if u.len() > 0 && u[0] == '.' {
        u.set(0, '_');
        assert(u@ == seq!['_'] + name@.drop_first());
    }
    let ghost uv = u@;
    assert(uv == if name@.len() > 0 && name@[0] == '.' {
        seq!['_'] + name@.drop_first()
    } else {
        name@
    });
    let mut f: Vec<char> = Vec::new();
    let mut i: usize = 0;
    while i < u.len()
        invariant
            i <= u@.len(),
            u@ == uv,
            f@ == filtered(uv.take(i as int)),
        decreases u@.len() - i,
    {
        let c = u[i];
        proof {
            lemma_filtered_step(uv, i as int);
        }
        if is_illegal_char(c) {
            f.push('_');
        } else {
            let lc = char_lowercase(c);
            let one = string_of(&[c]);
            assert(one@ == seq![c]);
            if lc != one {
                f.push(c);
                f.push('_');
            } else {
                f.push(c);
            }
        }
        i = i + 1;
    }
    assert(uv.take(uv.len() as int) == uv);
    let mut t: Vec<char> = Vec::new();
    let mut budget: usize = 255;
    let mut k: usize = 0;
    assert(f@.subrange(0, f@.len() as int) == f@);
    while k < f.len() && utf8_len_of(f[k]) <= budget
        invariant
            k <= f@.len(),
            budget <= 255,
            prefix_within(f@, 255) == t@ + prefix_within(f@.subrange(k as int, f@.len() as int), budget as int),
        decreases f@.len() - k,
    {
        assert(f@.subrange(k as int, f@.len() as int).drop_first() == f@.subrange(k + 1, f@.len() as int));
        assert(f@.subrange(k as int, f@.len() as int)[0] == f@[k as int]);
        budget = budget - utf8_len_of(f[k]);
        t.push(f[k]);
        k = k + 1;
    }
    if k < f.len() {
        assert(f@.subrange(k as int, f@.len() as int)[0] == f@[k as int]);
    }
    assert(prefix_within(f@, 255) == t@);
    let mut out = String::new();
    let mut start: usize = 0;
    loop
        invariant
            start <= t@.len(),
            fixed_parts_from(t@, 0) == out@ + fixed_parts_from(t@, start as int),
            t@ == prefix_within(filtered(uv), 255),
            file_name_of(name@) == fixed_parts_from(t@, 0),
        decreases t@.len() - start,
    {
        let mut e = start;
        while e < t.len() && t[e] != '.'
            invariant
                start <= e <= t@.len(),
                e + dot_run(t@.subrange(e as int, t@.len() as int)) == start + dot_run(
                    t@.subrange(start as int, t@.len() as int),
                ),
            decreases t@.len() - e,
        {
            assert(t@.subrange(e as int, t@.len() as int).drop_first() == t@.subrange(e + 1, t@.len() as int));
            e = e + 1;
        }
        if e < t.len() {
            assert(t@.subrange(e as int, t@.len() as int)[0] == t@[e as int]);
        }
        let part = string_of(&t.as_slice()[start..e]);
        let ghost before = out@;
        let lower = str_lowercase(part.as_str());
        if reserved(&lower) {
            push_char(&mut out, '_');
        }
        out.append(part.as_str());
        assert(out@ == before + fixed_part(t@.subrange(start as int, e as int)));
        assert(e == start + dot_run(t@.subrange(start as int, t@.len() as int)));
        if e >= t.len() {
            return out;
        }
        push_char(&mut out, '.');
        start = e + 1;
    }
}

} // verus!
