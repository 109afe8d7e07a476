use vstd::prelude::*;

use crate::error::Error;
use crate::text::{is_alnum_strict, is_alnum_strict_char, is_numeric, is_numeric_char, push_char};
use crate::value::{items_view, entries_view, plist_view, Plist, PlistModel};

verus! {

pub open spec fn digit_char(d: int) -> char {
    ((d + 48) as u8) as char
}

/// The decimal digits of `n`, most significant first.
pub open spec fn nat_text(n: nat) -> Seq<char>
    decreases n,
{
    if n < 10 {
        seq![digit_char(n as int)]
    } else {
        nat_text(n / 10).push(digit_char((n % 10) as int))
    }
}

/// The decimal text of an integer: a `-` before negative numbers.
pub open spec fn int_text(n: int) -> Seq<char> {
    if n < 0 {
        seq!['-'] + nat_text((-n) as nat)
    } else {
        nat_text(n as nat)
    }
}

/// The fractional digits of `f / 10_000` without trailing zeros, or `0`.
pub open spec fn frac_text(f: nat) -> Seq<char> {
    let d = seq![
        digit_char((f / 1000) as int),
        digit_char((f / 100 % 10) as int),
        digit_char((f / 10 % 10) as int),
        digit_char((f % 10) as int),
    ];
    if f % 1000 == 0 {
        d.take(1)
    } else if f % 100 == 0 {
        d.take(2)
    } else if f % 10 == 0 {
        d.take(3)
    } else {
        d
    }
}

pub open spec fn abs(n: int) -> nat {
    if n < 0 {
        (-n) as nat
    } else {
        n as nat
    }
}

/// The text of the real number `units / 10_000`: always with a decimal point.
pub open spec fn real_text(units: int) -> Seq<char> {
    let m = abs(units);
    (if units < 0 {
        seq!['-']
    } else {
        Seq::<char>::empty()
    }) + nat_text(m / 10000) + seq!['.'] + frac_text(m % 10000)
}

/// A string is written bare when it is not empty, every character is in the
/// strict unquoted alphabet, and it is not made of number characters only.
pub open spec fn is_bare(s: Seq<char>) -> bool {
    &&& s.len() > 0
    &&& forall|i: int| 0 <= i < s.len() ==> is_alnum_strict_char(#[trigger] s[i])
    &&& !(forall|i: int| 0 <= i < s.len() ==> is_numeric_char(#[trigger] s[i]))
}

/// `s` with a backslash before every `"` and `\`.
pub open spec fn escaped(s: Seq<char>) -> Seq<char>
    decreases s.len(),
{
    if s.len() == 0 {
        Seq::empty()
    } else {
        let c = s.last();
        escaped(s.drop_last()) + if c == '"' || c == '\\' {
            seq!['\\', c]
        } else {
            seq![c]
        }
    }
}

pub open spec fn string_text(s: Seq<char>) -> Seq<char> {
    if is_bare(s) {
        s
    } else {
        seq!['"'] + escaped(s) + seq!['"']
    }
}

pub open spec fn hex_char(d: int) -> char {
    if d < 10 {
        digit_char(d)
    } else {
        ((d - 10 + 97) as u8) as char
    }
}

pub open spec fn hex_text(b: Seq<u8>) -> Seq<char>
    decreases b.len(),
{
    if b.len() == 0 {
        Seq::empty()
    } else {
        hex_text(b.drop_last()) + seq![hex_char(b.last() as int / 16), hex_char(b.last() as int % 16)]
    }
}

/// A data block: two lowercase hex digits per byte between `<` and `>`.
pub open spec fn data_text(b: Seq<u8>) -> Seq<char> {
    seq!['<'] + hex_text(b) + seq!['>']
}

pub open spec fn is_container(p: PlistModel) -> bool {
    p is Array || p is Dictionary
}

pub open spec fn is_number(p: PlistModel) -> bool {
    p is Integer || p is Float
}

/// An array is written on one line when no element is an array or a dictionary.
pub open spec fn all_simple(items: Seq<PlistModel>) -> bool {
    forall|i: int| 0 <= i < items.len() ==> !is_container(#[trigger] items[i])
}

pub open spec fn all_numbers(items: Seq<PlistModel>) -> bool {
    forall|i: int| 0 <= i < items.len() ==> is_number(#[trigger] items[i])
}

/// The renderings of `items` with `sep` between neighbours.
pub open spec fn joined(items: Seq<PlistModel>, sep: Seq<char>) -> Seq<char>
    decreases items,
{
    if items.len() == 0 {
        Seq::empty()
    } else if items.len() == 1 {
        render(items[0])
    } else {
        joined(items.subrange(0, items.len() - 1), sep) + sep + render(items[items.len() - 1])
    }
}

/// Each entry on a line of its own: `key = value;`.
pub open spec fn entries_text(entries: Seq<(Seq<char>, PlistModel)>) -> Seq<char>
    decreases entries,
{
    if entries.len() == 0 {
        Seq::empty()
    } else {
        let e = entries[entries.len() - 1];
        entries_text(entries.subrange(0, entries.len() - 1)) + seq!['\n'] + string_text(e.0)
            + seq![' ', '=', ' '] + render(e.1) + seq![';']
    }
}

/// The canonical text of a value. An array is written inline when no element
/// is an array or a dictionary, with bare commas when all elements are numbers
/// and comma-space otherwise; else each element stands on its own line.
pub open spec fn render(p: PlistModel) -> Seq<char>
    decreases p,
{
    match p {
        PlistModel::Dictionary(entries) => seq!['{'] + entries_text(entries) + seq!['\n', '}'],
        PlistModel::Array(items) => if all_simple(items) {
            seq!['('] + joined(
                items,
                if all_numbers(items) {
                    seq![',']
                } else {
                    seq![',', ' ']
                },
            ) + seq![')']
        } else {
            seq!['(', '\n'] + joined(items, seq![',', '\n']) + seq!['\n', ')']
        },
        PlistModel::String(s) => string_text(s),
        PlistModel::Integer(n) => int_text(n),
        PlistModel::Float(u) => real_text(u),
        PlistModel::Data(b) => data_text(b),
    }
}

pub proof fn lemma_items_view(s: Seq<Plist>)
    ensures
        items_view(s).len() == s.len(),
        forall|i: int| 0 <= i < s.len() ==> #[trigger] items_view(s)[i] == plist_view(s[i]),
    decreases s.len(),
{
    if s.len() > 0 {
        lemma_items_view(s.subrange(0, s.len() - 1));
    }
}

pub proof fn lemma_entries_view(s: Seq<(String, Plist)>)
    ensures
        entries_view(s).len() == s.len(),
        forall|i: int|
            0 <= i < s.len() ==> #[trigger] entries_view(s)[i] == (s[i].0@, plist_view(s[i].1)),
    decreases s.len(),
{
    if s.len() > 0 {
        lemma_entries_view(s.subrange(0, s.len() - 1));
    }
}

fn digit(d: u8) -> (c: char)
    requires
        d < 10,
    ensures
        c == digit_char(d as int),
{
    (d + 48) as char
}

pub(crate) fn write_nat(n: u64, out: &mut String)
    ensures
        final(out)@ == old(out)@ + nat_text(n as nat),
    decreases n,
{
    if n >= 10 {
        write_nat(n / 10, out);
    }
    push_char(out, digit((n % 10) as u8));
}

pub(crate) fn write_int(n: i64, out: &mut String)
    ensures
        final(out)@ == old(out)@ + int_text(n as int),
{
    if n < 0 {
        push_char(out, '-');
        let m: u64 = (-(n as i128)) as u64;
        write_nat(m, out);
        assert(final(out)@ == old(out)@ + (seq!['-'] + nat_text((-n) as nat)));
    } else {
        write_nat(n as u64, out);
    }
}

pub(crate) fn write_real(units: i64, out: &mut String)
    ensures
        final(out)@ == old(out)@ + real_text(units as int),
{
    let ghost start = out@;
    let m: u64 = if units < 0 {
        (-(units as i128)) as u64
    } else {
        units as u64
    };
    if units < 0 {
        push_char(out, '-');
    }
    write_nat(m / 10000, out);
    push_char(out, '.');
    let f: u64 = m % 10000;
    push_char(out, digit((f / 1000) as u8));
    if f % 1000 != 0 {
        push_char(out, digit((f / 100 % 10) as u8));
        if f % 100 != 0 {
            push_char(out, digit((f / 10 % 10) as u8));
            if f % 10 != 0 {
                push_char(out, digit((f % 10) as u8));
            }
        }
    }
    let ghost sign = if units < 0 {
        seq!['-']
    } else {
        Seq::<char>::empty()
    };
    assert(out@ == start + (sign + nat_text((m / 10000) as nat) + seq!['.'] + frac_text(
        (m % 10000) as nat,
    )));
}

/// Writes `s` as the serializer does: bare when [`is_bare`] holds, else in
/// double quotes with `"` and `\` escaped.
pub fn escape_string(buf: &mut String, s: &str)
    ensures
        final(buf)@ == old(buf)@ + string_text(s@),
{
    let cs = crate::text::chars_of(s);
    let mut all_strict = true;
    let mut all_numeric = true;
    let mut i: usize = 0;
    while i < cs.len()
        invariant
            i <= cs@.len(),
            all_strict <==> forall|j: int| 0 <= j < i ==> is_alnum_strict_char(#[trigger] cs@[j]),
            all_numeric <==> forall|j: int| 0 <= j < i ==> is_numeric_char(#[trigger] cs@[j]),
        decreases cs@.len() - i,
    {
        if !is_alnum_strict(cs[i]) {
            all_strict = false;
        }
        if !is_numeric(cs[i]) {
            all_numeric = false;
        }
        i = i + 1;
    }
    if cs.len() > 0 && all_strict && !all_numeric {
        let mut k: usize = 0;
        while k < cs.len()
            invariant
                k <= cs@.len(),
                buf@ == old(buf)@ + cs@.take(k as int),
            decreases cs@.len() - k,
        {
            push_char(buf, cs[k]);
            k = k + 1;
            assert(cs@.take(k as int) == cs@.take(k - 1).push(cs@[k - 1]));
        }
        assert(cs@.take(cs@.len() as int) == cs@);
    } else {
        push_char(buf, '"');
        let mut k: usize = 0;
        while k < cs.len()
            invariant
                k <= cs@.len(),
                buf@ == old(buf)@ + seq!['"'] + escaped(cs@.take(k as int)),
            decreases cs@.len() - k,
        {
            let c = cs[k];
            if c == '"' || c == '\\' {
                push_char(buf, '\\');
            }
            push_char(buf, c);
            k = k + 1;
            assert(cs@.take(k as int).drop_last() == cs@.take(k - 1));
        }
        assert(cs@.take(cs@.len() as int) == cs@);
        push_char(buf, '"');
    }
}

fn hex_digit(v: u8) -> (c: char)
    requires
        v < 16,
    ensures
        c == hex_char(v as int),
{
    if v < 10 {
        (v + 48) as char
    } else {
        (v - 10 + 97) as char
    }
}

/// The two lowercase hex digits of a byte, high nibble first.
pub fn hex_digits_for_byte(byte: u8) -> (r: [char; 2])
    ensures
        r@ == seq![hex_char(byte as int / 16), hex_char(byte as int % 16)],
{
    let r = [hex_digit(byte / 16), hex_digit(byte % 16)];
    assert(r@ == seq![hex_char(byte as int / 16), hex_char(byte as int % 16)]);
    r
}

fn write_data(d: &Vec<u8>, out: &mut String)
    ensures
        final(out)@ == old(out)@ + data_text(d@),
{
    push_char(out, '<');
    let mut i: usize = 0;
    while i < d.len()
        invariant
            i <= d@.len(),
            out@ == old(out)@ + seq!['<'] + hex_text(d@.take(i as int)),
        decreases d@.len() - i,
    {
        let pair = hex_digits_for_byte(d[i]);
        push_char(out, pair[0]);
        push_char(out, pair[1]);
        i = i + 1;
        assert(d@.take(i as int).drop_last() == d@.take(i - 1));
    }
    assert(d@.take(d@.len() as int) == d@);
    push_char(out, '>');
}

proof fn lemma_joined_step(m: Seq<PlistModel>, k: int, sep: Seq<char>)
    requires
        0 <= k < m.len(),
    ensures
        joined(m.take(k + 1), sep) == if k == 0 {
            render(m[0])
        } else {
            joined(m.take(k), sep) + sep + render(m[k])
        },
{
    assert(m.take(k + 1).subrange(0, k) == m.take(k));
}

fn write_array(items: &Vec<Plist>, out: &mut String)
    ensures
        final(out)@ == old(out)@ + render(PlistModel::Array(items_view(items@))),
    decreases items, 0nat,
{
    proof {
        lemma_items_view(items@);
    }
    let ghost m = items_view(items@);
    let mut simple = true;
    let mut numeric = true;
    let mut i: usize = 0;
    while i < items.len()
        invariant
            i <= items@.len(),
            m == items_view(items@),
            m.len() == items@.len(),
            forall|j: int| 0 <= j < items@.len() ==> #[trigger] m[j] == plist_view(items@[j]),
            simple <==> all_simple(m.take(i as int)),
            numeric <==> all_numbers(m.take(i as int)),
        decreases items@.len() - i,
    {
        match &items[i] {
            Plist::Array(_) | Plist::Dictionary(_) => {
                simple = false;
            },
            _ => {},
        }
        match &items[i] {
            Plist::Integer(_) | Plist::Float(_) => {},
            _ => {
                numeric = false;
            },
        }
        proof {
            let t = m.take(i + 1);
            assert(t == m.take(i as int).push(m[i as int]));
            assert(all_simple(t) <==> all_simple(m.take(i as int)) && !is_container(m[i as int]))
                by {
                if all_simple(m.take(i as int)) && !is_container(m[i as int]) {
                    assert forall|j: int| 0 <= j < t.len() implies !is_container(#[trigger] t[j]) by {
                        if j < i {
                            assert(t[j] == m.take(i as int)[j]);
                        }
                    }
                }
                if all_simple(t) {
                    assert forall|j: int| 0 <= j < i implies !is_container(
                        #[trigger] m.take(i as int)[j],
                    ) by {
                        assert(t[j] == m.take(i as int)[j]);
                    }
                    assert(!is_container(t[i as int]));
                }
            }
            assert(all_numbers(t) <==> all_numbers(m.take(i as int)) && is_number(m[i as int]))
                by {
                if all_numbers(m.take(i as int)) && is_number(m[i as int]) {
                    assert forall|j: int| 0 <= j < t.len() implies is_number(#[trigger] t[j]) by {
                        if j < i {
                            assert(t[j] == m.take(i as int)[j]);
                        }
                    }
                }
                if all_numbers(t) {
                    assert forall|j: int| 0 <= j < i implies is_number(
                        #[trigger] m.take(i as int)[j],
                    ) by {
                        assert(t[j] == m.take(i as int)[j]);
                    }
                    assert(is_number(t[i as int]));
                }
            }
        }
        i = i + 1;
    }
    assert(m.take(m.len() as int) == m);
    let ghost sep = if simple {
        if numeric {
            seq![',']
        } else {
            seq![',', ' ']
        }
    } else {
        seq![',', '\n']
    };
    let ghost open = if simple {
        seq!['(']
    } else {
        seq!['(', '\n']
    };
    push_char(out, '(');
    if !simple {
        push_char(out, '\n');
    }
    let mut k: usize = 0;
    while k < items.len()
        invariant
            k <= items@.len(),
            m == items_view(items@),
            m.len() == items@.len(),
            forall|j: int| 0 <= j < items@.len() ==> #[trigger] m[j] == plist_view(items@[j]),
            out@ == old(out)@ + open + joined(m.take(k as int), sep),
            sep == if simple {
                if numeric {
                    seq![',']
                } else {
                    seq![',', ' ']
                }
            } else {
                seq![',', '\n']
            },
            open == if simple {
                seq!['(']
            } else {
                seq!['(', '\n']
            },
            simple <==> all_simple(m),
            numeric <==> all_numbers(m),
        decreases items@.len() - k,
    {
        let ghost before = out@;
        if k > 0 {
            push_char(out, ',');
            if simple {
                if !numeric {
                    push_char(out, ' ');
                    assert(out@ =~= before + seq![',', ' ']);
                } else {
                    assert(out@ =~= before + seq![',']);
                }
            } else {
                push_char(out, '\n');
                assert(out@ =~= before + seq![',', '\n']);
            }
        }
        assert(k > 0 ==> out@ == before + sep);
        assert(k == 0 ==> out@ == before);
        proof {
            lemma_joined_step(m, k as int, sep);
        }
        write_plist(&items[k], out);
        assert(out@ == old(out)@ + open + joined(m.take(k + 1), sep));
        k = k + 1;
    }
    if !simple {
        push_char(out, '\n');
    }
    push_char(out, ')');
}

proof fn lemma_entries_step(m: Seq<(Seq<char>, PlistModel)>, k: int)
    requires
        0 <= k < m.len(),
    ensures
        entries_text(m.take(k + 1)) == entries_text(m.take(k)) + seq!['\n'] + string_text(m[k].0)
            + seq![' ', '=', ' '] + render(m[k].1) + seq![';'],
{
    assert(m.take(k + 1).subrange(0, k) == m.take(k));
}

fn write_dict(entries: &Vec<(String, Plist)>, out: &mut String)
    ensures
        final(out)@ == old(out)@ + render(PlistModel::Dictionary(entries_view(entries@))),
    decreases entries, 0nat,
{
    proof {
        lemma_entries_view(entries@);
    }
    let ghost m = entries_view(entries@);
    push_char(out, '{');
    let mut k: usize = 0;
    while k < entries.len()
        invariant
            k <= entries@.len(),
            m == entries_view(entries@),
            m.len() == entries@.len(),
            forall|j: int|
                0 <= j < entries@.len() ==> #[trigger] m[j] == (entries@[j].0@, plist_view(
                    entries@[j].1,
                )),
            out@ == old(out)@ + seq!['{'] + entries_text(m.take(k as int)),
        decreases entries@.len() - k,
    {
        proof {
            lemma_entries_step(m, k as int);
        }
        let entry = &entries[k];
        push_char(out, '\n');
        escape_string(out, entry.0.as_str());
        push_char(out, ' ');
        push_char(out, '=');
        push_char(out, ' ');
        write_plist(&entry.1, out);
        push_char(out, ';');
        k = k + 1;
    }
    assert(m.take(m.len() as int) == m);
    push_char(out, '\n');
    push_char(out, '}');
}

/// Appends the canonical text of `p`.
pub fn write_plist(p: &Plist, out: &mut String)
    ensures
        final(out)@ == old(out)@ + render(plist_view(*p)),
    decreases p, 1nat,
{
    match p {
        Plist::Integer(n) => write_int(*n, out),
        Plist::Float(r) => write_real(r.units, out),
        Plist::String(s) => escape_string(out, s.as_str()),
        Plist::Data(d) => write_data(d, out),
        Plist::Array(items) => write_array(items, out),
        Plist::Dictionary(entries) => write_dict(entries, out),
    }
}

/// The canonical text of a value; it never fails.
pub fn to_string(value: &Plist) -> (r: Result<String, Error>)
    ensures
        r matches Ok(s) && s@ == render(plist_view(*value)),
{
    let mut out = String::new();
    write_plist(value, &mut out);
    Ok(out)
}

/// The text of a fixed-size tuple: always on one line, the elements
/// separated by comma-space, whatever they are.
pub open spec fn tuple_text(items: Seq<PlistModel>) -> Seq<char> {
    seq!['('] + joined(items, seq![',', ' ']) + seq![')']
}

/// Appends the text of a fixed-size tuple.
pub fn write_tuple(items: &Vec<Plist>, out: &mut String)
    ensures
        final(out)@ == old(out)@ + tuple_text(items_view(items@)),
{
    proof {
        lemma_items_view(items@);
    }
    let ghost m = items_view(items@);
    let ghost sep = seq![',', ' '];
    push_char(out, '(');
    let mut k: usize = 0;
    while k < items.len()
        invariant
            k <= items@.len(),
            m == items_view(items@),
            m.len() == items@.len(),
            forall|j: int| 0 <= j < items@.len() ==> #[trigger] m[j] == plist_view(items@[j]),
            out@ == old(out)@ + seq!['('] + joined(m.take(k as int), sep),
            sep == seq![',', ' '],
        decreases items@.len() - k,
    {
        let ghost before = out@;
        if k > 0 {
            push_char(out, ',');
            push_char(out, ' ');
            assert(out@ =~= before + sep);
        }
        proof {
            lemma_joined_step(m, k as int, sep);
        }
        write_plist(&items[k], out);
        assert(out@ == old(out)@ + seq!['('] + joined(m.take(k + 1), sep));
        k = k + 1;
    }
    assert(m.take(m.len() as int) == m);
    push_char(out, ')');
    assert(out@ =~= old(out)@ + tuple_text(m));
}

/// The text of a fixed-size tuple of values.
pub fn tuple_to_string(items: &Vec<Plist>) -> (r: String)
    ensures
        r@ == tuple_text(items_view(items@)),
{
    let mut out = String::new();
    write_tuple(items, &mut out);
    out
}

} // verus!
