use vstd::prelude::*;

use crate::parse_spec::{
    all_digits, alnum_run, atom_value, dict_insert, digits_value, hex_value, int_token, is_digit,
    is_hex, is_ws, key_index, parse_array, parse_data, parse_dict, parse_document, parse_key,
    parse_quoted, parse_value, point_index, real_token, sign_len, simple_escape, skip_ws,
    SyntaxErrorModel,
};
use crate::ser::{
    abs, all_numbers, all_simple, digit_char, entries_text, escaped, frac_text, hex_char, hex_text,
    int_text, is_bare, joined, nat_text, real_text, render, string_text,
};
use crate::text::{is_alnum_char, is_alnum_strict_char, is_numeric_char};
use crate::value::PlistModel;

verus! {

/// `s` holds the text `t` at index `p`.
pub open spec fn holds_at(s: Seq<char>, p: int, t: Seq<char>) -> bool {
    0 <= p && p + t.len() <= s.len() && s.subrange(p, p + t.len()) == t
}

proof fn lemma_holds_split(s: Seq<char>, p: int, a: Seq<char>, b: Seq<char>)
    requires
        holds_at(s, p, a + b),
    ensures
        holds_at(s, p, a),
        holds_at(s, p + a.len(), b),
{
    let whole = s.subrange(p, p + (a + b).len());
    assert(whole == a + b);
    assert(s.subrange(p, p + a.len()) =~= whole.subrange(0, a.len() as int));
    assert(whole.subrange(0, a.len() as int) =~= a);
    assert(s.subrange(p + a.len(), p + a.len() + b.len()) =~= whole.subrange(
        a.len() as int,
        whole.len() as int,
    ));
    assert(whole.subrange(a.len() as int, whole.len() as int) =~= b);
}

proof fn lemma_holds_char(s: Seq<char>, p: int, t: Seq<char>, j: int)
    requires
        holds_at(s, p, t),
        0 <= j < t.len(),
    ensures
        s[p + j] == t[j],
{
    assert(s.subrange(p, p + t.len())[j] == s[p + j]);
}

/// No whitespace to skip before a character that is not whitespace.
proof fn lemma_skip_none(s: Seq<char>, i: int)
    requires
        0 <= i <= s.len(),
        i < s.len() ==> !is_ws(s[i]),
    ensures
        skip_ws(s, i) == i,
{
    if i < s.len() {
        assert(s.subrange(i, s.len() as int)[0] == s[i]);
    }
}

/// Skipping one whitespace character and then none.
proof fn lemma_skip_one(s: Seq<char>, i: int)
    requires
        0 <= i < s.len(),
        is_ws(s[i]),
        i + 1 < s.len() ==> !is_ws(s[i + 1]),
    ensures
        skip_ws(s, i) == i + 1,
{
    assert(s.subrange(i, s.len() as int)[0] == s[i]);
    assert(s.subrange(i, s.len() as int).drop_first() == s.subrange(i + 1, s.len() as int));
    lemma_skip_none(s, i + 1);
}

/// A run of token characters ends where the next character is no token
/// character.
proof fn lemma_alnum_run(s: Seq<char>, i: int, n: int)
    requires
        0 <= i,
        0 <= n,
        i + n <= s.len(),
        forall|j: int| i <= j < i + n ==> is_alnum_char(#[trigger] s[j]),
        i + n < s.len() ==> !is_alnum_char(s[i + n]),
    ensures
        alnum_run(s.subrange(i, s.len() as int)) == n,
    decreases n,
{
    if n == 0 {
        if i < s.len() {
            assert(s.subrange(i, s.len() as int)[0] == s[i]);
        }
    } else {
        assert(s.subrange(i, s.len() as int)[0] == s[i]);
        assert(s.subrange(i, s.len() as int).drop_first() == s.subrange(i + 1, s.len() as int));
        lemma_alnum_run(s, i + 1, n - 1);
    }
}

proof fn lemma_digit_char(d: int)
    requires
        0 <= d < 10,
    ensures
        digit_char(d) as nat == d + 48,
        is_digit(digit_char(d)),
{
    assert(((d + 48) as u8) as char as nat == d + 48);
}

pub proof fn lemma_nat_text_facts(n: nat)
    ensures
        nat_text(n).len() >= 1,
        all_digits(nat_text(n)),
        digits_value(nat_text(n)) == n,
{
    lemma_nat_text(n);
}

proof fn lemma_nat_text(n: nat)
    ensures
        nat_text(n).len() >= 1,
        all_digits(nat_text(n)),
        digits_value(nat_text(n)) == n,
    decreases n,
{
    lemma_digit_char((n % 10) as int);
    if n < 10 {
        assert(nat_text(n).drop_last() =~= Seq::<char>::empty());
        assert(digits_value(nat_text(n)) == digits_value(Seq::<char>::empty()) * 10 + n);
    }
    if n >= 10 {
        lemma_nat_text(n / 10);
        let t = nat_text(n / 10);
        assert(nat_text(n).drop_last() == t);
        assert(nat_text(n).last() == digit_char((n % 10) as int));
        assert(digits_value(nat_text(n)) == digits_value(t) * 10 + (n % 10) as nat);
        assert forall|i: int| 0 <= i < nat_text(n).len() implies is_digit(#[trigger] nat_text(n)[i]) by {
            if i < t.len() {
                assert(nat_text(n)[i] == t[i]);
            }
        }
    }
}

/// The text of an integer reads back as that integer.
pub proof fn lemma_int_atom(n: int)
    requires
        i64::MIN <= n <= i64::MAX,
    ensures
        atom_value(int_text(n)) == PlistModel::Integer(n),
        forall|j: int| 0 <= j < int_text(n).len() ==> is_alnum_char(#[trigger] int_text(n)[j]),
{
    let m = abs(n);
    lemma_nat_text(m);
    let t = int_text(n);
    if n < 0 {
        assert(t[0] == '-');
        assert(t.subrange(1, t.len() as int) == nat_text(m));
        assert(sign_len(t) == 1);
    } else {
        assert(nat_text(m)[0] != '-') by {
            assert(is_digit(nat_text(m)[0]));
        }
        assert(sign_len(t) == 0);
        assert(t.subrange(0, t.len() as int) == t);
    }
    assert(int_token(t));
    assert forall|j: int| 0 <= j < t.len() implies is_alnum_char(#[trigger] t[j]) by {
        if n < 0 {
            if j > 0 {
                assert(t[j] == nat_text(m)[j - 1]);
                assert(is_digit(nat_text(m)[j - 1]));
            }
        } else {
            assert(is_digit(nat_text(m)[j]));
        }
    }
}

proof fn lemma_frac_arith(f: nat)
    requires
        f < 10000,
    ensures
        f == (f / 1000) * 1000 + (f / 100 % 10) * 100 + (f / 10 % 10) * 10 + f % 10,
        f % 1000 == 0 ==> f / 100 % 10 == 0 && f / 10 % 10 == 0 && f % 10 == 0,
        f % 100 == 0 ==> f / 10 % 10 == 0 && f % 10 == 0,
        f / 1000 < 10,
{
    assert(f == (f / 1000) * 1000 + (f / 100 % 10) * 100 + (f / 10 % 10) * 10 + f % 10)
        by (nonlinear_arith)
        requires
            f < 10000,
    ;
    assert(f % 1000 == 0 ==> f / 100 % 10 == 0 && f / 10 % 10 == 0 && f % 10 == 0)
        by (nonlinear_arith)
        requires
            f < 10000,
    ;
    assert(f % 100 == 0 ==> f / 10 % 10 == 0 && f % 10 == 0) by (nonlinear_arith)
        requires
            f < 10000,
    ;
}

pub proof fn lemma_frac_text(f: nat)
    requires
        f < 10000,
    ensures
        1 <= frac_text(f).len() <= 4,
        all_digits(frac_text(f)),
        crate::parse_spec::frac_units(frac_text(f)) == f,
{
    let d0 = (f / 1000) as int;
    let d1 = (f / 100 % 10) as int;
    let d2 = (f / 10 % 10) as int;
    let d3 = (f % 10) as int;
    lemma_frac_arith(f);
    lemma_digit_char(d0);
    lemma_digit_char(d1);
    lemma_digit_char(d2);
    lemma_digit_char(d3);
    let d = seq![digit_char(d0), digit_char(d1), digit_char(d2), digit_char(d3)];
    let b = frac_text(f);
    let n: int = if f % 1000 == 0 {
        1
    } else if f % 100 == 0 {
        2
    } else if f % 10 == 0 {
        3
    } else {
        4
    };
    assert(b == d.take(n));
    assert forall|i: int| 0 <= i < b.len() implies is_digit(#[trigger] b[i]) by {
        assert(b[i] == d[i]);
    }
    let fd = |k: int| crate::parse_spec::frac_digit(b, k);
    assert(fd(0) == d0);
    assert(n > 1 ==> fd(1) == d1);
    assert(n > 2 ==> fd(2) == d2);
    assert(n > 3 ==> fd(3) == d3);
}

pub proof fn lemma_point_index(t: Seq<char>, i: int, p: int)
    requires
        0 <= i <= p < t.len(),
        forall|j: int| i <= j < p ==> #[trigger] t[j] != '.',
        t[p] == '.',
    ensures
        point_index(t, i) == p,
    decreases p - i,
{
    if i < p {
        lemma_point_index(t, i + 1, p);
    }
}

/// The text of a real number reads back as that number.
pub proof fn lemma_real_atom(u: int)
    requires
        i64::MIN <= u <= i64::MAX,
    ensures
        atom_value(real_text(u)) == PlistModel::Float(u),
        forall|j: int| 0 <= j < real_text(u).len() ==> is_alnum_char(#[trigger] real_text(u)[j]),
{
    let m = abs(u);
    let a = nat_text(m / 10000);
    let f = frac_text(m % 10000);
    lemma_nat_text(m / 10000);
    lemma_frac_text(m % 10000);
    let sg = if u < 0 {
        seq!['-']
    } else {
        Seq::<char>::empty()
    };
    let t = real_text(u);
    assert(t == sg + a + seq!['.'] + f);
    let sl = sg.len() as int;
    assert(is_digit(a[0]));
    assert(sign_len(t) == sl);
    let p = sl + a.len();
    assert(t[p] == '.');
    assert forall|j: int| sl <= j < p implies #[trigger] t[j] != '.' by {
        assert(t[j] == a[j - sl]);
        assert(is_digit(a[j - sl]));
    }
    lemma_point_index(t, sl, p);
    assert(t.subrange(sl, p) == a);
    assert(t.subrange(p + 1, t.len() as int) == f);
    let d = t.subrange(sl, t.len() as int);
    assert(d[a.len() as int] == '.');
    assert(!int_token(t));
    assert(digits_value(a) * 10000 + crate::parse_spec::frac_units(f) == m);
    assert(real_token(t));
    assert forall|j: int| 0 <= j < t.len() implies is_alnum_char(#[trigger] t[j]) by {
        if j < sl {
        } else if j < p {
            assert(t[j] == a[j - sl]);
            assert(is_digit(a[j - sl]));
        } else if j > p {
            assert(t[j] == f[j - p - 1]);
            assert(is_digit(f[j - p - 1]));
        }
    }
}

/// A string that the serializer leaves bare reads back as that string.
pub proof fn lemma_bare_atom(t: Seq<char>)
    requires
        is_bare(t),
    ensures
        atom_value(t) == PlistModel::String(t),
        forall|j: int| 0 <= j < t.len() ==> is_alnum_char(#[trigger] t[j]),
{
    let k = choose|k: int| 0 <= k < t.len() && !is_numeric_char(#[trigger] t[k]);
    let sl = sign_len(t);
    assert(sl == 0) by {
        if sl == 1 {
            assert(!is_alnum_strict_char('-'));
            assert(is_alnum_strict_char(t[0]));
        }
    }
    assert(t.subrange(0, t.len() as int) == t);
    assert(!is_digit(t[k]));
    assert(!int_token(t));
    if real_token(t) {
        let p = point_index(t, 0);
        lemma_point_bounds(t, 0);
        let a = t.subrange(0, p);
        let b = if p < t.len() {
            t.subrange(p + 1, t.len() as int)
        } else {
            Seq::empty()
        };
        if k < p {
            assert(a[k] == t[k]);
        } else if k == p {
            assert(t[k] == '.');
        } else {
            assert(b[k - p - 1] == t[k]);
        }
    }
}

/// A text without a decimal point has its point index at its end.
pub proof fn lemma_point_bounds_pub(t: Seq<char>)
    requires
        forall|j: int| 0 <= j < t.len() ==> #[trigger] t[j] != '.',
    ensures
        point_index(t, 0) == t.len(),
{
    lemma_no_point(t, 0);
}

proof fn lemma_no_point(t: Seq<char>, i: int)
    requires
        0 <= i <= t.len(),
        forall|j: int| 0 <= j < t.len() ==> #[trigger] t[j] != '.',
    ensures
        point_index(t, i) == t.len(),
    decreases t.len() - i,
{
    if i < t.len() {
        lemma_no_point(t, i + 1);
    }
}

proof fn lemma_point_bounds(t: Seq<char>, i: int)
    requires
        0 <= i <= t.len(),
    ensures
        i <= point_index(t, i) <= t.len(),
        point_index(t, i) < t.len() ==> t[point_index(t, i)] == '.',
    decreases t.len() - i,
{
    if i < t.len() && t[i] != '.' {
        lemma_point_bounds(t, i + 1);
    }
}

proof fn lemma_escaped_concat(a: Seq<char>, b: Seq<char>)
    ensures
        escaped(a + b) == escaped(a) + escaped(b),
    decreases b.len(),
{
    if b.len() == 0 {
        assert(a + b == a);
        assert(escaped(b) == Seq::<char>::empty());
        assert(escaped(a) + escaped(b) == escaped(a));
    } else {
        assert((a + b).drop_last() == a + b.drop_last());
        assert((a + b).last() == b.last());
        lemma_escaped_concat(a, b.drop_last());
    }
}

/// The body of a quoted string reads back as the text that was escaped.
proof fn lemma_quoted(s: Seq<char>, i: int, acc: Seq<char>, start: int, t: Seq<char>)
    requires
        holds_at(s, i, escaped(t) + seq!['"']),
    ensures
        parse_quoted(s, i, acc, start) == Ok::<(Seq<char>, int), (crate::parse_spec::SyntaxErrorModel, int)>((acc + t, i + escaped(t).len() + 1)),
    decreases t.len(),
{
    if t.len() == 0 {
        assert(escaped(t) == Seq::<char>::empty());
        lemma_holds_char(s, i, escaped(t) + seq!['"'], 0);
        assert(acc + t == acc);
    } else {
        let c = t[0];
        let t2 = t.drop_first();
        assert(t == seq![c] + t2);
        lemma_escaped_concat(seq![c], t2);
        assert(seq![c].drop_last() == Seq::<char>::empty());
        assert(escaped(Seq::<char>::empty()) == Seq::<char>::empty());
        let e1 = escaped(seq![c]);
        assert(e1 =~= if c == '"' || c == '\\' {
            seq!['\\', c]
        } else {
            seq![c]
        });
        assert(e1 == if c == '"' || c == '\\' {
            seq!['\\', c]
        } else {
            seq![c]
        });
        assert(escaped(t) + seq!['"'] == e1 + (escaped(t2) + seq!['"']));
        lemma_holds_split(s, i, e1, escaped(t2) + seq!['"']);
        lemma_holds_char(s, i, e1, 0);
        if c == '"' || c == '\\' {
            lemma_holds_char(s, i, e1, 1);
            assert(simple_escape(c) == Some(c));
        }
        lemma_quoted(s, i + e1.len(), acc.push(c), start, t2);
        assert(acc.push(c) + t2 == acc + t);
    }
}

proof fn lemma_hex_concat(a: Seq<u8>, b: Seq<u8>)
    ensures
        hex_text(a + b) == hex_text(a) + hex_text(b),
    decreases b.len(),
{
    if b.len() == 0 {
        assert(a + b == a);
        assert(hex_text(b) == Seq::<char>::empty());
        assert(hex_text(a) + hex_text(b) == hex_text(a));
    } else {
        assert((a + b).drop_last() == a + b.drop_last());
        assert((a + b).last() == b.last());
        lemma_hex_concat(a, b.drop_last());
    }
}

proof fn lemma_hex_char(d: int)
    requires
        0 <= d < 16,
    ensures
        is_hex(hex_char(d)),
        hex_value(hex_char(d)) == d,
        !is_ws(hex_char(d)),
{
    if d < 10 {
        lemma_digit_char(d);
    } else {
        assert(((d - 10 + 97) as u8) as char as nat == d - 10 + 97);
    }
}

/// The hex digits of a data block read back as its bytes.
proof fn lemma_data(s: Seq<char>, i: int, acc: Seq<u8>, start: int, b: Seq<u8>)
    requires
        holds_at(s, i, hex_text(b) + seq!['>']),
    ensures
        parse_data(s, i, acc, start) == Ok::<(Seq<u8>, int), (crate::parse_spec::SyntaxErrorModel, int)>((acc + b, i + hex_text(b).len() + 1)),
    decreases b.len(),
{
    if b.len() == 0 {
        assert(hex_text(b) == Seq::<char>::empty());
        lemma_holds_char(s, i, hex_text(b) + seq!['>'], 0);
        lemma_skip_none(s, i);
        assert(acc + b == acc);
    } else {
        let x = b[0];
        let b2 = b.drop_first();
        assert(b == seq![x] + b2);
        lemma_hex_concat(seq![x], b2);
        assert(seq![x].drop_last() == Seq::<u8>::empty());
        assert(hex_text(Seq::<u8>::empty()) == Seq::<char>::empty());
        let h = hex_text(seq![x]);
        assert(h =~= seq![hex_char(x as int / 16), hex_char(x as int % 16)]);
        assert(h == seq![hex_char(x as int / 16), hex_char(x as int % 16)]);
        assert(hex_text(b) + seq!['>'] == h + (hex_text(b2) + seq!['>']));
        lemma_holds_split(s, i, h, hex_text(b2) + seq!['>']);
        lemma_holds_char(s, i, h, 0);
        lemma_holds_char(s, i, h, 1);
        lemma_hex_char(x as int / 16);
        lemma_hex_char(x as int % 16);
        lemma_skip_none(s, i);
        assert(((hex_value(s[i]) * 16 + hex_value(s[i + 1])) as u8) == x);
        lemma_data(s, i + 2, acc.push(x), start, b2);
        assert(acc.push(x) + b2 == acc + b);
    }
}

/// No two entries share a key.
pub open spec fn keys_unique(d: Seq<(Seq<char>, PlistModel)>) -> bool {
    forall|a: int, b: int| 0 <= a < b < d.len() ==> #[trigger] d[a].0 != #[trigger] d[b].0
}

pub open spec fn items_well_formed(items: Seq<PlistModel>) -> bool
    decreases items,
{
    if items.len() == 0 {
        true
    } else {
        items_well_formed(items.subrange(0, items.len() - 1)) && well_formed(
            items[items.len() - 1],
        )
    }
}

pub open spec fn entries_well_formed(d: Seq<(Seq<char>, PlistModel)>) -> bool
    decreases d,
{
    if d.len() == 0 {
        true
    } else {
        entries_well_formed(d.subrange(0, d.len() - 1)) && well_formed(d[d.len() - 1].1)
    }
}

/// The values that the parser can produce: dictionary keys are unique and
/// numbers fit in 64 bits.
pub open spec fn well_formed(m: PlistModel) -> bool
    decreases m,
{
    match m {
        PlistModel::Dictionary(d) => keys_unique(d) && entries_well_formed(d),
        PlistModel::Array(items) => items_well_formed(items),
        PlistModel::Integer(n) => i64::MIN <= n <= i64::MAX,
        PlistModel::Float(u) => i64::MIN <= u <= i64::MAX,
        PlistModel::String(_) => true,
        PlistModel::Data(_) => true,
    }
}

proof fn lemma_items_wf(items: Seq<PlistModel>, k: int)
    requires
        items_well_formed(items),
        0 <= k < items.len(),
    ensures
        well_formed(items[k]),
    decreases items.len(),
{
    if k < items.len() - 1 {
        assert(items.subrange(0, items.len() - 1)[k] == items[k]);
        lemma_items_wf(items.subrange(0, items.len() - 1), k);
    }
}

proof fn lemma_entries_wf(d: Seq<(Seq<char>, PlistModel)>, k: int)
    requires
        entries_well_formed(d),
        0 <= k < d.len(),
    ensures
        well_formed(d[k].1),
    decreases d.len(),
{
    if k < d.len() - 1 {
        assert(d.subrange(0, d.len() - 1)[k] == d[k]);
        lemma_entries_wf(d.subrange(0, d.len() - 1), k);
    }
}

/// A rendering is never empty and never starts with whitespace or a closing
/// character.
proof fn lemma_render_first(m: PlistModel)
    ensures
        render(m).len() > 0,
        !is_ws(render(m)[0]),
        render(m)[0] != ')',
        render(m)[0] != '}',
{
    match m {
        PlistModel::Integer(n) => {
            lemma_nat_text(abs(n));
            assert(is_digit(nat_text(abs(n))[0]));
        },
        PlistModel::Float(u) => {
            lemma_nat_text(abs(u) / 10000);
            assert(is_digit(nat_text(abs(u) / 10000)[0]));
        },
        PlistModel::String(t) => {
            if is_bare(t) {
                assert(is_alnum_strict_char(t[0]));
            }
        },
        _ => {},
    }
}

/// A key written by the serializer reads back, up to the space before `=`.
proof fn lemma_key(s: Seq<char>, j: int, k: Seq<char>)
    requires
        holds_at(s, j, string_text(k)),
        j + string_text(k).len() < s.len(),
        s[j + string_text(k).len()] == ' ',
    ensures
        parse_key(s, j) == Ok::<(Seq<char>, int), (SyntaxErrorModel, int)>((k, j + string_text(k).len())),
{
    let t = string_text(k);
    lemma_render_first(PlistModel::String(k));
    lemma_holds_char(s, j, t, 0);
    if is_bare(k) {
        lemma_bare_atom(k);
        assert forall|x: int| j <= x < j + k.len() implies is_alnum_char(#[trigger] s[x]) by {
            lemma_holds_char(s, j, t, x - j);
        }
        lemma_alnum_run(s, j, k.len() as int);
    } else {
        assert(t == seq!['"'] + (escaped(k) + seq!['"']));
        lemma_holds_split(s, j, seq!['"'], escaped(k) + seq!['"']);
        lemma_quoted(s, j + 1, Seq::empty(), j, k);
        assert(Seq::<char>::empty() + k == k);
    }
}

proof fn lemma_key_absent(d: Seq<(Seq<char>, PlistModel)>, k: Seq<char>)
    requires
        forall|j: int| 0 <= j < d.len() ==> #[trigger] d[j].0 != k,
    ensures
        key_index(d, k) == -1,
    decreases d.len(),
{
    if d.len() > 0 {
        lemma_key_absent(d.drop_last(), k);
    }
}

proof fn lemma_holds_empty(s: Seq<char>, p: int)
    requires
        0 <= p <= s.len(),
    ensures
        holds_at(s, p, Seq::empty()),
{
    assert(s.subrange(p, p) =~= Seq::<char>::empty());
}

/// The renderings of the first `k` elements stand where those of the first
/// `j` elements do.
proof fn lemma_joined_prefix(
    s: Seq<char>,
    base: int,
    items: Seq<PlistModel>,
    sep: Seq<char>,
    k: int,
    j: int,
)
    requires
        0 <= k <= j <= items.len(),
        holds_at(s, base, joined(items.take(j), sep)),
    ensures
        holds_at(s, base, joined(items.take(k), sep)),
    decreases j - k,
{
    if k < j {
        let t = items.take(j);
        assert(t.subrange(0, j - 1) == items.take(j - 1));
        if j == 1 {
            assert(joined(items.take(0), sep) == Seq::<char>::empty());
            lemma_holds_empty(s, base);
        } else {
            lemma_holds_split(
                s,
                base,
                joined(items.take(j - 1), sep) + sep,
                render(items[j - 1]),
            );
            lemma_holds_split(s, base, joined(items.take(j - 1), sep), sep);
        }
        lemma_joined_prefix(s, base, items, sep, k, j - 1);
    }
}

proof fn lemma_entries_prefix(
    s: Seq<char>,
    base: int,
    d: Seq<(Seq<char>, PlistModel)>,
    k: int,
    j: int,
)
    requires
        0 <= k <= j <= d.len(),
        holds_at(s, base, entries_text(d.take(j))),
    ensures
        holds_at(s, base, entries_text(d.take(k))),
    decreases j - k,
{
    if k < j {
        let t = d.take(j);
        assert(t.subrange(0, j - 1) == d.take(j - 1));
        let e = d[j - 1];
        let rest = seq!['\n'] + string_text(e.0) + seq![' ', '=', ' '] + render(e.1) + seq![';'];
        assert(entries_text(t) == entries_text(d.take(j - 1)) + rest);
        lemma_holds_split(s, base, entries_text(d.take(j - 1)), rest);
        lemma_entries_prefix(s, base, d, k, j - 1);
    }
}

/// Where element `k` of a rendered array stands, and what follows it.
#[verifier::rlimit(60)]
proof fn lemma_item_layout(
    s: Seq<char>,
    items: Seq<PlistModel>,
    sep: Seq<char>,
    close: Seq<char>,
    base: int,
    k: int,
    q: int,
)
    requires
        0 <= k < items.len(),
        sep == seq![','] || sep == seq![',', ' '] || sep == seq![',', '\n'],
        close == seq![')'] || close == seq!['\n', ')'],
        holds_at(s, base, joined(items, sep) + close),
        0 < q,
        k == 0 ==> q <= base && skip_ws(s, q) == base,
        k > 0 ==> q == base + joined(items.take(k), sep).len() + 1,
    ensures
        ({
            let jk1 = joined(items.take(k + 1), sep);
            let pk = base + jk1.len() - render(items[k]).len();
            &&& q <= pk
            &&& skip_ws(s, q) == pk
            &&& holds_at(s, pk, render(items[k]))
            &&& k + 1 < items.len() ==> s[base + jk1.len()] == ','
            &&& k + 1 == items.len() ==> jk1 == joined(items, sep)
        }),
{
    let n = items.len() as int;
    let jn = joined(items, sep);
    lemma_holds_split(s, base, jn, close);
    assert(items.take(n) == items);
    lemma_joined_prefix(s, base, items, sep, k + 1, n);
    lemma_joined_step(items, k, sep);
    let jk = joined(items.take(k), sep);
    let jk1 = joined(items.take(k + 1), sep);
    let item = render(items[k]);
    let pk = base + jk1.len() - item.len();
    if k > 0 {
        lemma_holds_split(s, base, jk + sep, item);
        lemma_holds_split(s, base, jk, sep);
        lemma_render_first(items[k]);
        lemma_holds_char(s, pk, item, 0);
        lemma_holds_char(s, base + jk.len(), sep, 0);
        if sep.len() == 1 {
            lemma_skip_none(s, q);
        } else {
            lemma_holds_char(s, base + jk.len(), sep, 1);
            lemma_skip_one(s, q);
        }
    } else {
        assert(jk1 == item);
    }
    if k + 1 < n {
        lemma_joined_prefix(s, base, items, sep, k + 2, n);
        lemma_joined_step(items, k + 1, sep);
        lemma_holds_split(s, base, jk1 + sep, render(items[k + 1]));
        lemma_holds_split(s, base, jk1, sep);
        lemma_holds_char(s, base + jk1.len(), sep, 0);
    }
}

/// Parsing the elements of a rendered array from element `k` on.
proof fn lemma_array_from(
    s: Seq<char>,
    items: Seq<PlistModel>,
    sep: Seq<char>,
    close: Seq<char>,
    base: int,
    k: int,
    q: int,
)
    requires
        items_well_formed(items),
        0 <= k < items.len(),
        sep == seq![','] || sep == seq![',', ' '] || sep == seq![',', '\n'],
        close == seq![')'] || close == seq!['\n', ')'],
        holds_at(s, base, joined(items, sep) + close),
        0 < q,
        k == 0 ==> q <= base && skip_ws(s, q) == base,
        k > 0 ==> q == base + joined(items.take(k), sep).len() + 1,
    ensures
        parse_array(s, q, items.take(k)) == Ok::<(PlistModel, int), (SyntaxErrorModel, int)>((
            PlistModel::Array(items),
            base + joined(items, sep).len() + close.len(),
        )),
    decreases items, items.len() - k,
{
    let n = items.len() as int;
    let jn = joined(items, sep);
    let jk1 = joined(items.take(k + 1), sep);
    let item = render(items[k]);
    let pk = base + jk1.len() - item.len();
    let f = base + jk1.len();
    lemma_item_layout(s, items, sep, close, base, k, q);
    lemma_holds_split(s, base, jn, close);
    lemma_items_wf(items, k);
    lemma_render_first(items[k]);
    lemma_holds_char(s, pk, item, 0);
    if k + 1 == n {
        lemma_holds_char(s, base + jn.len(), close, 0);
    }
    lemma_value_at(s, pk, pk, items[k]);
    assert(items.take(k).push(items[k]) == items.take(k + 1));
    if k + 1 < n {
        lemma_skip_none(s, f);
        lemma_array_from(s, items, sep, close, base, k + 1, f + 1);
    } else {
        assert(items.take(k + 1) == items);
        if close.len() == 1 {
            lemma_skip_none(s, f);
        } else {
            lemma_holds_char(s, base + jn.len(), close, 1);
            lemma_skip_one(s, f);
        }
    }
}

proof fn lemma_joined_step(m: Seq<PlistModel>, k: int, sep: Seq<char>)
    requires
        0 <= k < m.len(),
    ensures
        joined(m.take(k + 1), sep) == if k == 0 {
            render(m[0])
        } else {
            joined(m.take(k), sep) + sep + render(m[k])
        },
{
    assert(m.take(k + 1).subrange(0, k) == m.take(k));
}

/// Parsing the entries of a rendered dictionary from entry `k` on.
/// Parsing the entries of a rendered dictionary from entry `k` on; `tail` is
/// its closing `\n}`, or only the `\n` where the text ends.
proof fn lemma_dict_from(
    s: Seq<char>,
    d: Seq<(Seq<char>, PlistModel)>,
    base: int,
    k: int,
    tail: Seq<char>,
)
    requires
        keys_unique(d),
        entries_well_formed(d),
        tail == seq!['\n', '}'] || (tail == seq!['\n'] && s.len() == base + entries_text(d).len()
            + 1),
        holds_at(s, base, entries_text(d) + tail),
        0 < base,
        0 <= k <= d.len(),
    ensures
        parse_dict(s, base + entries_text(d.take(k)).len(), d.take(k)) == if tail.len() == 2 {
            Ok::<(PlistModel, int), (SyntaxErrorModel, int)>(
                (PlistModel::Dictionary(d), base + entries_text(d).len() + 2),
            )
        } else {
            Err::<(PlistModel, int), (SyntaxErrorModel, int)>(
                (SyntaxErrorModel::ExpectedCloseBrace, s.len() as int),
            )
        },
    decreases d, d.len() - k,
{
    let n = d.len() as int;
    let en = entries_text(d);
    assert(d.take(n) == d);
    lemma_holds_split(s, base, en, tail);
    let ek = entries_text(d.take(k));
    let p = base + ek.len();
    if k == n {
        lemma_holds_char(s, base + en.len(), tail, 0);
        if tail.len() == 2 {
            lemma_holds_char(s, base + en.len(), tail, 1);
        }
        lemma_skip_one(s, p);
    } else {
        lemma_entries_prefix(s, base, d, k + 1, n);
        let e = d[k];
        let kt = string_text(e.0);
        let vt = render(e.1);
        assert(d.take(k + 1).subrange(0, k) == d.take(k));
        assert(entries_text(d.take(k + 1)) == ek + seq!['\n'] + kt + seq![' ', '=', ' '] + vt
            + seq![';']);
        lemma_holds_split(s, base, ek + seq!['\n'] + kt + seq![' ', '=', ' '] + vt, seq![';']);
        lemma_holds_split(s, base, ek + seq!['\n'] + kt + seq![' ', '=', ' '], vt);
        lemma_holds_split(s, base, ek + seq!['\n'] + kt, seq![' ', '=', ' ']);
        lemma_holds_split(s, base, ek + seq!['\n'], kt);
        lemma_holds_split(s, base, ek, seq!['\n']);
        let kp = p + 1;
        let eq = kp + kt.len();
        let vp = eq + 3;
        let f = vp + vt.len();
        lemma_holds_char(s, p, seq!['\n'], 0);
        lemma_holds_char(s, eq, seq![' ', '=', ' '], 0);
        lemma_holds_char(s, eq, seq![' ', '=', ' '], 1);
        lemma_holds_char(s, eq, seq![' ', '=', ' '], 2);
        lemma_holds_char(s, f, seq![';'], 0);
        lemma_render_first(PlistModel::String(e.0));
        lemma_holds_char(s, kp, kt, 0);
        lemma_skip_one(s, p);
        lemma_key(s, kp, e.0);
        lemma_skip_one(s, eq);
        lemma_render_first(e.1);
        lemma_holds_char(s, vp, vt, 0);
        lemma_skip_one(s, eq + 2);
        lemma_entries_wf(d, k);
        lemma_value_at(s, eq + 2, vp, e.1);
        lemma_skip_none(s, f);
        assert forall|x: int| 0 <= x < d.take(k).len() implies #[trigger] d.take(k)[x].0 != e.0 by {
            assert(d.take(k)[x] == d[x]);
        }
        lemma_key_absent(d.take(k), e.0);
        assert(dict_insert(d.take(k), e.0, e.1) == d.take(k + 1));
        lemma_dict_from(s, d, base, k + 1, tail);
    }
}

/// An unquoted token, found after optional whitespace, reads back as the
/// value that its text denotes.
proof fn lemma_atom_at(s: Seq<char>, i: int, j: int, r: Seq<char>)
    requires
        0 <= i <= j,
        skip_ws(s, i) == j,
        holds_at(s, j, r),
        r.len() > 0,
        forall|x: int| 0 <= x < r.len() ==> is_alnum_char(#[trigger] r[x]),
        j + r.len() < s.len() ==> !is_alnum_char(s[j + r.len()]),
    ensures
        parse_value(s, i) == Ok::<(PlistModel, int), (SyntaxErrorModel, int)>((atom_value(r), j + r.len())),
{
    let n = r.len() as int;
    assert forall|x: int| j <= x < j + n implies is_alnum_char(#[trigger] s[x]) by {
        lemma_holds_char(s, j, r, x - j);
    }
    lemma_holds_char(s, j, r, 0);
    lemma_alnum_run(s, j, n);
}

proof fn lemma_array_at(s: Seq<char>, i: int, j: int, items: Seq<PlistModel>)
    requires
        items_well_formed(items),
        0 <= i <= j,
        skip_ws(s, i) == j,
        holds_at(s, j, render(PlistModel::Array(items))),
    ensures
        parse_value(s, i) == Ok::<(PlistModel, int), (SyntaxErrorModel, int)>((
            PlistModel::Array(items),
            j + render(PlistModel::Array(items)).len(),
        )),
    decreases items, items.len() + 1,
{
    let r = render(PlistModel::Array(items));
    lemma_holds_char(s, j, r, 0);
    if items.len() == 0 {
        assert(all_simple(items));
        assert(joined(items, seq![',']) == Seq::<char>::empty());
        assert(r =~= seq!['(', ')']);
        lemma_holds_char(s, j, r, 1);
        lemma_skip_none(s, j + 1);
        assert(s[j] == '(');
        assert(s[j + 1] == ')');
        assert(items =~= Seq::<PlistModel>::empty());
        assert(parse_array(s, j + 1, Seq::empty()) == Ok::<(PlistModel, int), (SyntaxErrorModel, int)>((
            PlistModel::Array(items),
            j + 2,
        )));
    } else {
        let simple = all_simple(items);
        let sep = if simple {
            if all_numbers(items) {
                seq![',']
            } else {
                seq![',', ' ']
            }
        } else {
            seq![',', '\n']
        };
        let open = if simple {
            seq!['(']
        } else {
            seq!['(', '\n']
        };
        let close = if simple {
            seq![')']
        } else {
            seq!['\n', ')']
        };
        assert(r == open + (joined(items, sep) + close));
        assert(r[0] == '(');
        lemma_holds_split(s, j, open, joined(items, sep) + close);
        let base = j + open.len();
        lemma_holds_split(s, base, joined(items, sep), close);
        assert(items.take(items.len() as int) == items);
        lemma_joined_prefix(s, base, items, sep, 1, items.len() as int);
        assert(items.take(1).subrange(0, 0) == items.take(0));
        assert(joined(items.take(1), sep) == render(items[0]));
        lemma_render_first(items[0]);
        lemma_holds_char(s, base, render(items[0]), 0);
        if !simple {
            lemma_holds_char(s, j, open, 1);
            lemma_skip_one(s, j + 1);
        } else {
            lemma_skip_none(s, j + 1);
        }
        assert(items.take(0) == Seq::<PlistModel>::empty());
        lemma_array_from(s, items, sep, close, base, 0, j + 1);
        assert(s[j] == '(');
        assert(parse_array(s, j + 1, Seq::empty()) == Ok::<(PlistModel, int), (SyntaxErrorModel, int)>((
            PlistModel::Array(items),
            j + r.len(),
        )));
    }
}

/// A well-formed value's rendering, found after optional whitespace, reads
/// back as that value.
pub proof fn lemma_value_at(s: Seq<char>, i: int, j: int, m: PlistModel)
    requires
        well_formed(m),
        0 <= i <= j,
        skip_ws(s, i) == j,
        holds_at(s, j, render(m)),
        j + render(m).len() < s.len() ==> !is_alnum_char(s[j + render(m).len()]),
    ensures
        parse_value(s, i) == Ok::<(PlistModel, int), (SyntaxErrorModel, int)>((m, j + render(m).len())),
    decreases m, 0int,
{
    let r = render(m);
    lemma_render_first(m);
    lemma_holds_char(s, j, r, 0);
    match m {
        PlistModel::Integer(v) => {
            lemma_int_atom(v);
            lemma_atom_at(s, i, j, r);
        },
        PlistModel::Float(u) => {
            lemma_real_atom(u);
            lemma_atom_at(s, i, j, r);
        },
        PlistModel::String(t) => {
            if is_bare(t) {
                lemma_bare_atom(t);
                lemma_atom_at(s, i, j, r);
            } else {
                assert(r == seq!['"'] + (escaped(t) + seq!['"']));
                lemma_holds_split(s, j, seq!['"'], escaped(t) + seq!['"']);
                lemma_quoted(s, j + 1, Seq::empty(), j, t);
                assert(Seq::<char>::empty() + t == t);
            }
        },
        PlistModel::Data(b) => {
            assert(r == seq!['<'] + (hex_text(b) + seq!['>']));
            lemma_holds_split(s, j, seq!['<'], hex_text(b) + seq!['>']);
            lemma_data(s, j + 1, Seq::empty(), j, b);
            assert(Seq::<u8>::empty() + b == b);
        },
        PlistModel::Array(items) => {
            lemma_array_at(s, i, j, items);
        },
        PlistModel::Dictionary(d) => {
            assert(r == seq!['{'] + (entries_text(d) + seq!['\n', '}']));
            lemma_holds_split(s, j, seq!['{'], entries_text(d) + seq!['\n', '}']);
            assert(d.take(0) == Seq::<(Seq<char>, PlistModel)>::empty());
            assert(entries_text(d.take(0)) == Seq::<char>::empty());
            lemma_dict_from(s, d, j + 1, 0, seq!['\n', '}']);
        },
    }
}

/// Serializing a well-formed value and parsing the text gives the value back.
pub proof fn lemma_round_trip(m: PlistModel)
    requires
        well_formed(m),
    ensures
        parse_document(render(m)) == Ok::<(PlistModel, int), (SyntaxErrorModel, int)>((m, render(m).len() as int)),
{
    let s = render(m);
    lemma_render_first(m);
    assert(s.subrange(0, s.len() as int) == s);
    lemma_skip_none(s, 0);
    lemma_value_at(s, 0, 0, m);
    lemma_skip_none(s, s.len() as int);
}

proof fn lemma_entries_wf_from_all(d: Seq<(Seq<char>, PlistModel)>)
    requires
        forall|i: int| 0 <= i < d.len() ==> well_formed(#[trigger] d[i].1),
    ensures
        entries_well_formed(d),
    decreases d.len(),
{
    if d.len() > 0 {
        let e = d.subrange(0, d.len() - 1);
        assert forall|i: int| 0 <= i < e.len() implies well_formed(#[trigger] e[i].1) by {
            assert(e[i] == d[i]);
        }
        lemma_entries_wf_from_all(e);
    }
}

proof fn lemma_items_wf_from_all(items: Seq<PlistModel>)
    requires
        forall|i: int| 0 <= i < items.len() ==> well_formed(#[trigger] items[i]),
    ensures
        items_well_formed(items),
    decreases items.len(),
{
    if items.len() > 0 {
        let e = items.subrange(0, items.len() - 1);
        assert forall|i: int| 0 <= i < e.len() implies well_formed(#[trigger] e[i]) by {
            assert(e[i] == items[i]);
        }
        lemma_items_wf_from_all(e);
    }
}

proof fn lemma_key_index_facts(d: Seq<(Seq<char>, PlistModel)>, k: Seq<char>)
    ensures
        -1 <= key_index(d, k) < d.len(),
        key_index(d, k) >= 0 ==> d[key_index(d, k)].0 == k,
        key_index(d, k) == -1 ==> forall|j: int| 0 <= j < d.len() ==> #[trigger] d[j].0 != k,
    decreases d.len(),
{
    if d.len() > 0 {
        lemma_key_index_facts(d.drop_last(), k);
        if d.last().0 != k {
            assert forall|j: int| 0 <= j < d.len() - 1 implies #[trigger] d[j].0 == d.drop_last()[j].0 by {}
        }
    }
}

proof fn lemma_insert_wf(
    d: Seq<(Seq<char>, PlistModel)>,
    k: Seq<char>,
    v: PlistModel,
)
    requires
        keys_unique(d),
        entries_well_formed(d),
        well_formed(v),
    ensures
        keys_unique(dict_insert(d, k, v)),
        entries_well_formed(dict_insert(d, k, v)),
{
    lemma_key_index_facts(d, k);
    let r = dict_insert(d, k, v);
    assert forall|i: int| 0 <= i < d.len() implies well_formed(#[trigger] d[i].1) by {
        lemma_entries_wf(d, i);
    }
    let x = key_index(d, k);
    if x >= 0 {
        assert forall|a: int, b: int| 0 <= a < b < r.len() implies #[trigger] r[a].0
            != #[trigger] r[b].0 by {
            assert(r[a].0 == d[a].0);
            assert(r[b].0 == d[b].0);
        }
        assert forall|i: int| 0 <= i < r.len() implies well_formed(#[trigger] r[i].1) by {
            if i != x {
                assert(r[i] == d[i]);
            }
        }
    } else {
        assert forall|a: int, b: int| 0 <= a < b < r.len() implies #[trigger] r[a].0
            != #[trigger] r[b].0 by {
            assert(r[a] == d[a]);
            if b < d.len() {
                assert(r[b] == d[b]);
            }
        }
        assert forall|i: int| 0 <= i < r.len() implies well_formed(#[trigger] r[i].1) by {
            if i < d.len() {
                assert(r[i] == d[i]);
            }
        }
    }
    lemma_entries_wf_from_all(r);
}

proof fn lemma_atom_wf(t: Seq<char>)
    ensures
        well_formed(atom_value(t)),
{
}

/// Every value that the parser produces is well formed.
proof fn lemma_parse_value_wf(s: Seq<char>, i: int)
    ensures
        parse_value(s, i) matches Ok((m, _)) ==> well_formed(m),
    decreases s.len() - i, 0nat,
{
    let j = skip_ws(s, i);
    if !(i < 0 || j >= s.len()) {
        let c = s[j];
        if c == '{' {
            lemma_parse_dict_wf(s, j + 1, Seq::empty());
        } else if c == '(' {
            lemma_parse_array_wf(s, j + 1, Seq::empty());
        } else if is_alnum_char(c) {
            let e = j + alnum_run(s.subrange(j, s.len() as int));
            lemma_atom_wf(s.subrange(j, e));
        }
    }
}

proof fn lemma_parse_dict_wf(s: Seq<char>, i: int, acc: Seq<(Seq<char>, PlistModel)>)
    requires
        keys_unique(acc),
        entries_well_formed(acc),
    ensures
        parse_dict(s, i, acc) matches Ok((m, _)) ==> well_formed(m),
    decreases s.len() - i, 1nat,
{
    let j = skip_ws(s, i);
    if !(i < 0 || j >= s.len()) && s[j] != '}' {
        match parse_key(s, j) {
            Err(_) => {},
            Ok((k, e)) => {
                let q = skip_ws(s, e);
                if !(q >= s.len() || s[q] != '=') && !(q + 1 <= i) {
                    lemma_parse_value_wf(s, q + 1);
                    match parse_value(s, q + 1) {
                        Err(_) => {},
                        Ok((v, f)) => {
                            let sc = skip_ws(s, f);
                            if !(sc >= s.len() || s[sc] != ';') && !(sc + 1 <= i) {
                                lemma_insert_wf(acc, k, v);
                                lemma_parse_dict_wf(s, sc + 1, dict_insert(acc, k, v));
                            }
                        },
                    }
                }
            },
        }
    }
}

proof fn lemma_parse_array_wf(s: Seq<char>, i: int, acc: Seq<PlistModel>)
    requires
        items_well_formed(acc),
    ensures
        parse_array(s, i, acc) matches Ok((m, _)) ==> well_formed(m),
    decreases s.len() - i, 1nat,
{
    let j = skip_ws(s, i);
    if !(i < 0 || j >= s.len()) && s[j] != ')' {
        lemma_parse_value_wf(s, j);
        match parse_value(s, j) {
            Err(_) => {},
            Ok((v, f)) => {
                assert forall|x: int| 0 <= x < acc.push(v).len() implies well_formed(
                    #[trigger] acc.push(v)[x],
                ) by {
                    if x < acc.len() {
                        lemma_items_wf(acc, x);
                    }
                }
                lemma_items_wf_from_all(acc.push(v));
                let m = skip_ws(s, f);
                if !(m >= s.len()) && s[m] != ')' && s[m] == ',' && !(m + 1 <= i) {
                    lemma_parse_array_wf(s, m + 1, acc.push(v));
                }
            },
        }
    }
}

/// The canonical text of a parsed document parses to the same value: the
/// canonical form is stable.
pub proof fn lemma_canonical_stable(t: Seq<char>)
    requires
        parse_document(t) is Ok,
    ensures
        ({
            let m = parse_document(t)->Ok_0.0;
            parse_document(render(m)) == Ok::<(PlistModel, int), (SyntaxErrorModel, int)>((m, render(m).len() as int))
        }),
{
    lemma_parse_value_wf(t, 0);
    lemma_round_trip(parse_document(t)->Ok_0.0);
}

/// The text of a well-formed dictionary with its closing brace left out fails
/// to parse with a missing `}` at the end of the text.
pub proof fn lemma_missing_close_brace(d: Seq<(Seq<char>, PlistModel)>)
    requires
        well_formed(PlistModel::Dictionary(d)),
    ensures
        ({
            let t = seq!['{'] + entries_text(d) + seq!['\n'];
            parse_document(t) == Err::<(PlistModel, int), (SyntaxErrorModel, int)>(
                (SyntaxErrorModel::ExpectedCloseBrace, t.len() as int),
            )
        }),
{
    let t = seq!['{'] + entries_text(d) + seq!['\n'];
    assert(t == seq!['{'] + (entries_text(d) + seq!['\n']));
    assert(t.subrange(1, t.len() as int) == entries_text(d) + seq!['\n']);
    assert(d.take(0) == Seq::<(Seq<char>, PlistModel)>::empty());
    assert(entries_text(d.take(0)) == Seq::<char>::empty());
    lemma_dict_from(t, d, 1, 0, seq!['\n']);
    lemma_skip_none(t, 0);
}

} // verus!
