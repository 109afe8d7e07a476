use vstd::prelude::*;

use crate::bridge::{DecodeError, DecodeErrorKind};
use crate::codec::comma_index;
use crate::loose_real::{
    exp_index, frac_part, int_part, loose_real, loose_real_of, mantissa, pow10, scaled, signs,
};
use crate::parse_spec::digits_value;
use crate::ser::{abs, frac_text, nat_text, real_text};
use crate::text::{chars_of, is_unicode_ws, push_char, trim_chars, trim_ws};
use crate::value::{plist_view, Plist, PlistModel, Real};

verus! {

pub open spec fn is_brace(c: char) -> bool {
    c == '{' || c == '}'
}

/// `t` without the braces at either end.
pub open spec fn strip_braces(t: Seq<char>) -> Seq<char>
    decreases t.len(),
{
    if t.len() > 0 && is_brace(t[0]) {
        strip_braces(t.drop_first())
    } else if t.len() > 0 && is_brace(t.last()) {
        strip_braces(t.drop_last())
    } else {
        t
    }
}

/// The numbers of the comma-separated parts of `u` from index `i` on, each
/// part trimmed of whitespace and read as [`loose_real`].
pub open spec fn numbers_from(u: Seq<char>, i: int) -> Option<Seq<int>>
    decreases u.len() - i,
{
    if i < 0 || i > u.len() {
        None
    } else {
        let k = comma_index(u, i);
        let part = trim_ws(u.subrange(i, k));
        match loose_real(part) {
            None => None,
            Some(v) => {
                if k >= u.len() {
                    Some(seq![v])
                } else {
                    match numbers_from(u, k + 1) {
                        Some(rest) => Some(seq![v] + rest),
                        None => None,
                    }
                }
            },
        }
    }
}

/// The numbers of a curly-brace text such as `{800, 15}`.
pub open spec fn curly_numbers(t: Seq<char>) -> Option<Seq<int>> {
    numbers_from(strip_braces(t), 0)
}

/// A number as the curly-brace form writes it: whole numbers without a
/// decimal point.
pub open spec fn plain_real_text(u: int) -> Seq<char> {
    if abs(u) % 10000 == 0 {
        (if u < 0 {
            seq!['-']
        } else {
            Seq::<char>::empty()
        }) + nat_text(abs(u) / 10000)
    } else {
        real_text(u)
    }
}

/// Numbers joined by comma-space.
pub open spec fn commified(vs: Seq<int>) -> Seq<char>
    decreases vs.len(),
{
    if vs.len() == 0 {
        Seq::empty()
    } else if vs.len() == 1 {
        plain_real_text(vs[0])
    } else {
        commified(vs.drop_last()) + seq![',', ' '] + plain_real_text(vs.last())
    }
}

/// The curly-brace text of some numbers: `{a, b, ...}`.
pub open spec fn curly_text(vs: Seq<int>) -> Seq<char> {
    seq!['{'] + commified(vs) + seq!['}']
}

pub open spec fn units_view(v: Seq<Real>) -> Seq<int> {
    v.map_values(|r: Real| r.units as int)
}

pub(crate) fn write_plain_real(units: i64, out: &mut String)
    ensures
        final(out)@ == old(out)@ + plain_real_text(units as int),
{
    let m: u64 = if units < 0 {
        (-(units as i128)) as u64
    } else {
        units as u64
    };
    if m % 10000 == 0 {
        let ghost start = out@;
        if units < 0 {
            push_char(out, '-');
        }
        crate::ser::write_nat(m / 10000, out);
        assert(out@ =~= start + plain_real_text(units as int));
    } else {
        crate::ser::write_real(units, out);
    }
}

/// Writes numbers in the curly-brace form.
pub fn serialize_commify(values: &[Real]) -> (r: Plist)
    ensures
        plist_view(r) == PlistModel::String(curly_text(units_view(values@))),
{
    let ghost vs = units_view(values@);
    let mut out = String::new();
    push_char(&mut out, '{');
    let mut i: usize = 0;
    while i < values.len()
        invariant
            i <= values@.len(),
            vs == units_view(values@),
            out@ == seq!['{'] + commified(vs.take(i as int)),
        decreases values@.len() - i,
    {
        assert(vs.take(i + 1).drop_last() == vs.take(i as int));
        assert(vs[i as int] == values@[i as int].units as int);
        if i > 0 {
            push_char(&mut out, ',');
            push_char(&mut out, ' ');
        }
        write_plain_real(values[i].units, &mut out);
        i = i + 1;
    }
    assert(vs.take(vs.len() as int) == vs);
    push_char(&mut out, '}');
    assert(out@ =~= curly_text(vs));
    Plist::String(out)
}

fn brace_bounds(t: &Vec<char>) -> (r: (usize, usize))
    ensures
        r.0 <= r.1 <= t@.len(),
        t@.subrange(r.0 as int, r.1 as int) == strip_braces(t@),
{
    let mut a: usize = 0;
    assert(t@.subrange(0, t@.len() as int) == t@);
    while a < t.len() && (t[a] == '{' || t[a] == '}')
        invariant
            a <= t@.len(),
            strip_braces(t@.subrange(a as int, t@.len() as int)) == strip_braces(t@),
        decreases t@.len() - a,
    {
        assert(t@.subrange(a as int, t@.len() as int).drop_first() == t@.subrange(
            a + 1,
            t@.len() as int,
        ));
        a = a + 1;
    }
    let mut b: usize = t.len();
    while b > a && (t[b - 1] == '{' || t[b - 1] == '}')
        invariant
            a <= b <= t@.len(),
            a < t@.len() ==> !is_brace(t@[a as int]),
            strip_braces(t@.subrange(a as int, b as int)) == strip_braces(t@),
        decreases b - a,
    {
        assert(t@.subrange(a as int, b as int)[0] == t@[a as int]);
        assert(t@.subrange(a as int, b as int).drop_last() == t@.subrange(a as int, b - 1));
        b = b - 1;
    }
    if a < b {
        assert(t@.subrange(a as int, b as int)[0] == t@[a as int]);
        assert(t@.subrange(a as int, b as int).last() == t@[b - 1]);
    }
    (a, b)
}

/// Reads the numbers of a curly-brace text.
pub fn curly_numbers_of(text: &str) -> (r: Option<Vec<Real>>)
    ensures
        match curly_numbers(text@) {
            Some(vs) => r matches Some(v) && units_view(v@) == vs,
            None => r is None,
        },
{
    let t = chars_of(text);
    let (a, b) = brace_bounds(&t);
    let u = crate::parse::copy_range(&t, a, b);
    let mut out: Vec<Real> = Vec::new();
    let mut i: usize = 0;
    assert(units_view(out@) =~= Seq::<int>::empty());
    loop
        invariant
            i <= u@.len(),
            u@ == strip_braces(text@),
            numbers_from(u@, 0) == match numbers_from(u@, i as int) {
                Some(rest) => Some(units_view(out@) + rest),
                None => None::<Seq<int>>,
            },
        decreases u@.len() - i,
    {
        let mut k = i;
        while k < u.len() && u[k] != ','
            invariant
                i <= k <= u@.len(),
                comma_index(u@, k as int) == comma_index(u@, i as int),
            decreases u@.len() - k,
        {
            assert(u@.subrange(k as int, u@.len() as int).drop_first() == u@.subrange(
                k + 1,
                u@.len() as int,
            ));
            k = k + 1;
        }
        if k < u.len() {
            assert(u@.subrange(k as int, u@.len() as int)[0] == u@[k as int]);
        }
        assert(comma_index(u@, k as int) == k);
        let part = crate::parse::copy_range(&u, i, k);
        let trimmed_part = trim_chars(&part);
        match loose_real_of(&trimmed_part) {
            None => {
                assert(numbers_from(u@, i as int) is None);
                return None;
            },
            Some(v) => {
                let ghost before = units_view(out@);
                out.push(Real { units: v });
                assert(units_view(out@) =~= before + seq![v as int]);
                if k >= u.len() {
                    return Some(out);
                }
                proof {
                    match numbers_from(u@, k + 1) {
                        Some(rest) => {
                            assert(before + (seq![v as int] + rest) == units_view(out@) + rest);
                        },
                        None => {},
                    }
                }
                i = k + 1;
            },
        }
    }
}

/// The vertical zone of an alignment zone: its position and overshoot.
#[derive(Debug, Default, Clone, Copy, PartialEq, Eq, Structural)]
pub struct AlignmentZone {
    pub position: Real,
    pub overshoot: Real,
}

impl AlignmentZone {
    /// The curly-brace form `{position, overshoot}`.
    pub fn to_plist(&self) -> (r: Plist)
        ensures
            plist_view(r) == PlistModel::String(
                curly_text(seq![self.position.units as int, self.overshoot.units as int]),
            ),
    {
        let values = [self.position, self.overshoot];
        let r = serialize_commify(&values);
        assert(units_view(values@) =~= seq![self.position.units as int, self.overshoot.units as int]);
        r
    }

    /// Reads the first two numbers of a curly-brace text.
    pub fn from_plist(v: &Plist) -> (r: Result<AlignmentZone, DecodeError>)
        ensures
            match plist_view(*v) {
                PlistModel::String(s) => match curly_numbers(s) {
                    Some(vs) => if vs.len() >= 2 {
                        r matches Ok(z) && z.position.units == vs[0] && z.overshoot.units == vs[1]
                    } else {
                        r is Err
                    },
                    None => r is Err,
                },
                _ => r is Err,
            },
    {
        match v {
            Plist::String(s) => match curly_numbers_of(s.as_str()) {
                Some(vs) => {
                    if vs.len() >= 2 {
                        Ok(AlignmentZone { position: vs[0], overshoot: vs[1] })
                    } else {
                        Err(DecodeError::new(DecodeErrorKind::InvalidValue { reason: "expected 2 parts" }))
                    }
                },
                None => Err(DecodeError::new(DecodeErrorKind::InvalidValue { reason: "not a number" })),
            },
            _ => Err(DecodeError::new(DecodeErrorKind::TypeMismatch { expected: "string" })),
        }
    }
}

/// An affine transform: four matrix components and a translation.
#[derive(Debug, Default, Clone, Copy, PartialEq, Eq, Structural)]
pub struct Transform {
    pub m11: Real,
    pub m12: Real,
    pub m21: Real,
    pub m22: Real,
    pub t_x: Real,
    pub t_y: Real,
}

pub open spec fn transform_units(x: Transform) -> Seq<int> {
    seq![
        x.m11.units as int,
        x.m12.units as int,
        x.m21.units as int,
        x.m22.units as int,
        x.t_x.units as int,
        x.t_y.units as int,
    ]
}

impl Transform {
    /// The curly-brace form of the six components.
    pub fn to_plist(&self) -> (r: Plist)
        ensures
            plist_view(r) == PlistModel::String(curly_text(transform_units(*self))),
    {
        let values = [self.m11, self.m12, self.m21, self.m22, self.t_x, self.t_y];
        let r = serialize_commify(&values);
        assert(units_view(values@) =~= transform_units(*self));
        r
    }

    /// Reads exactly six numbers of a curly-brace text.
    pub fn from_plist(v: &Plist) -> (r: Result<Transform, DecodeError>)
        ensures
            match plist_view(*v) {
                PlistModel::String(s) => match curly_numbers(s) {
                    Some(vs) => if vs.len() == 6 {
                        r matches Ok(x) && transform_units(x) == vs
                    } else {
                        r is Err
                    },
                    None => r is Err,
                },
                _ => r is Err,
            },
    {
        match v {
            Plist::String(s) => match curly_numbers_of(s.as_str()) {
                Some(vs) => {
                    if vs.len() == 6 {
                        let x = Transform {
                            m11: vs[0],
                            m12: vs[1],
                            m21: vs[2],
                            m22: vs[3],
                            t_x: vs[4],
                            t_y: vs[5],
                        };
                        assert(transform_units(x) =~= units_view(vs@));
                        Ok(x)
                    } else {
                        Err(DecodeError::new(DecodeErrorKind::InvalidValue { reason: "expected 6 parts" }))
                    }
                },
                None => Err(DecodeError::new(DecodeErrorKind::InvalidValue { reason: "not a number" })),
            },
            _ => Err(DecodeError::new(DecodeErrorKind::TypeMismatch { expected: "string" })),
        }
    }
}

proof fn lemma_digits_concat(a: Seq<char>, b: Seq<char>)
    ensures
        digits_value(a + b) == digits_value(a) * pow10(b.len()) + digits_value(b),
    decreases b.len(),
{
    if b.len() == 0 {
        assert(a + b == a);
        assert(digits_value(b) == 0);
        assert(pow10(0) == 1);
        assert(digits_value(a) * 1 == digits_value(a));
    } else {
        assert((a + b).drop_last() == a + b.drop_last());
        assert((a + b).last() == b.last());
        lemma_digits_concat(a, b.drop_last());
        let x = digits_value(a);
        let db = digits_value(b.drop_last());
        let c = (b.last() as nat - 48) as nat;
        let p = pow10(b.drop_last().len());
        assert(digits_value(a + b) == digits_value(a + b.drop_last()) * 10 + c);
        assert(digits_value(b) == db * 10 + c);
        assert(pow10(b.len()) == 10 * p);
        assert((x * p + db) * 10 + c == x * (10 * p) + (db * 10 + c)) by (nonlinear_arith);
    }
}

proof fn lemma_frac_value(f: nat)
    requires
        f < 10000,
    ensures
        1 <= frac_text(f).len() <= 4,
        digits_value(frac_text(f)) * pow10((4 - frac_text(f).len()) as nat) == f,
{
    crate::laws::lemma_frac_text(f);
    let b = frac_text(f);
    let fd = |k: int| crate::parse_spec::frac_digit(b, k);
    reveal_with_fuel(digits_value, 5);
    reveal_with_fuel(pow10, 5);
    assert(f == fd(0) * 1000 + fd(1) * 100 + fd(2) * 10 + fd(3));
    assert(pow10(0) == 1 && pow10(1) == 10 && pow10(2) == 100 && pow10(3) == 1000);
    if b.len() == 1 {
        assert(b.drop_last() =~= Seq::<char>::empty());
        assert(digits_value(b) == fd(0));
        assert(fd(1) == 0 && fd(2) == 0 && fd(3) == 0);
        assert(pow10((4 - b.len()) as nat) == 1000);
        assert(digits_value(b) * 1000 == f);
    } else if b.len() == 2 {
        assert(b.drop_last().drop_last() =~= Seq::<char>::empty());
        assert(b.drop_last()[0] == b[0]);
        assert(digits_value(b) == fd(0) * 10 + fd(1));
        assert(fd(2) == 0 && fd(3) == 0);
        assert(pow10((4 - b.len()) as nat) == 100);
        assert(digits_value(b) * 100 == f);
    } else if b.len() == 3 {
        assert(b.drop_last().drop_last().drop_last() =~= Seq::<char>::empty());
        assert(b.drop_last().drop_last()[0] == b[0]);
        assert(b.drop_last()[1] == b[1]);
        assert(digits_value(b) == (fd(0) * 10 + fd(1)) * 10 + fd(2));
        assert(fd(3) == 0);
        assert(pow10((4 - b.len()) as nat) == 10);
        assert(digits_value(b) * 10 == f);
    } else {
        assert(b.drop_last().drop_last().drop_last().drop_last() =~= Seq::<char>::empty());
        assert(b.drop_last().drop_last().drop_last()[0] == b[0]);
        assert(b.drop_last().drop_last()[1] == b[1]);
        assert(b.drop_last()[2] == b[2]);
        assert(digits_value(b) == ((fd(0) * 10 + fd(1)) * 10 + fd(2)) * 10 + fd(3));
        assert(pow10((4 - b.len()) as nat) == 1);
        assert(digits_value(b) * 1 == f);
    }
}

proof fn lemma_no_exp(t: Seq<char>, i: int)
    requires
        0 <= i <= t.len(),
        forall|j: int| i <= j < t.len() ==> (#[trigger] t[j] != 'e' && t[j] != 'E'),
    ensures
        exp_index(t, i) == t.len(),
    decreases t.len() - i,
{
    if i < t.len() {
        lemma_no_exp(t, i + 1);
    }
}

pub open spec fn plain_char_ok(c: char) -> bool {
    c != ',' && !is_unicode_ws(c) && !is_brace(c)
}

proof fn lemma_plain_whole(u: int)
    requires
        i64::MIN <= u <= i64::MAX,
        abs(u) % 10000 == 0,
    ensures
        loose_real(plain_real_text(u)) == Some(u),
        plain_real_text(u).len() > 0,
        forall|j: int| 0 <= j < plain_real_text(u).len() ==> plain_char_ok(#[trigger] plain_real_text(u)[j]),
{
    let m = abs(u);
    let q = m / 10000;
    let a = nat_text(q);
    crate::laws::lemma_nat_text_facts(q);
    let t = plain_real_text(u);
    let sg = if u < 0 {
        seq!['-']
    } else {
        Seq::<char>::empty()
    };
    let sl = sg.len() as int;
    assert(crate::parse_spec::is_digit(a[0]));
    assert(t == sg + a);
    assert(signs(t) == sl);
    assert forall|j: int| sl <= j < t.len() implies (#[trigger] t[j] != 'e' && t[j] != 'E') by {
        assert(t[j] == a[j - sl]);
        assert(crate::parse_spec::is_digit(a[j - sl]));
    }
    lemma_no_exp(t, sl);
    assert(mantissa(t) == a);
    assert forall|j: int| 0 <= j < a.len() implies #[trigger] a[j] != '.' by {
        assert(crate::parse_spec::is_digit(a[j]));
    }
    crate::laws::lemma_point_bounds_pub(a);
    assert(int_part(t) == a);
    assert(frac_part(t) == Seq::<char>::empty());
    assert(a + Seq::<char>::empty() == a);
    reveal_with_fuel(pow10, 5);
    assert(q * 10000 == m);
    assert forall|j: int| 0 <= j < t.len() implies plain_char_ok(#[trigger] t[j]) by {
        if j >= sl {
            assert(t[j] == a[j - sl]);
            assert(crate::parse_spec::is_digit(a[j - sl]));
        }
    }
}

#[verifier::rlimit(60)]
proof fn lemma_plain_fraction(u: int)
    requires
        i64::MIN <= u <= i64::MAX,
        abs(u) % 10000 != 0,
    ensures
        loose_real(plain_real_text(u)) == Some(u),
        plain_real_text(u).len() > 0,
        forall|j: int| 0 <= j < plain_real_text(u).len() ==> plain_char_ok(#[trigger] plain_real_text(u)[j]),
{
    let m = abs(u);
    let q = m / 10000;
    let f = m % 10000;
    let a = nat_text(q);
    crate::laws::lemma_nat_text_facts(q);
    let t = plain_real_text(u);
    let sg = if u < 0 {
        seq!['-']
    } else {
        Seq::<char>::empty()
    };
    let sl = sg.len() as int;
    assert(crate::parse_spec::is_digit(a[0]));
    let b = frac_text(f);
    lemma_frac_value(f);
    crate::laws::lemma_frac_text(f);
    assert(t == sg + a + seq!['.'] + b);
    assert(signs(t) == sl);
    assert forall|j: int| sl <= j < t.len() implies (#[trigger] t[j] != 'e' && t[j] != 'E')
        && plain_char_ok(t[j]) by {
        if j < sl + a.len() {
            assert(t[j] == a[j - sl]);
            assert(crate::parse_spec::is_digit(a[j - sl]));
        } else if j > sl + a.len() {
            assert(t[j] == b[j - sl - a.len() - 1]);
            assert(crate::parse_spec::is_digit(b[j - sl - a.len() - 1]));
        }
    }
    lemma_no_exp(t, sl);
    let mt = mantissa(t);
    assert(mt == a + seq!['.'] + b);
    assert forall|j: int| 0 <= j < a.len() implies #[trigger] mt[j] != '.' by {
        assert(mt[j] == a[j]);
        assert(crate::parse_spec::is_digit(a[j]));
    }
    crate::laws::lemma_point_index(mt, 0, a.len() as int);
    assert(int_part(t) == a);
    assert(frac_part(t) =~= b);
    lemma_digits_concat(a, b);
    let k = 4 - b.len();
    let pb = pow10(b.len());
    let pk = pow10(k as nat);
    assert(pb * pk == 10000) by {
        reveal_with_fuel(pow10, 5);
        if b.len() == 1 {
            assert(pb == 10 && pk == 1000);
        } else if b.len() == 2 {
            assert(pb == 100 && pk == 100);
        } else if b.len() == 3 {
            assert(pb == 1000 && pk == 10);
        } else {
            assert(pb == 10000 && pk == 1);
        }
    }
    assert(pk >= 1) by {
        reveal_with_fuel(pow10, 5);
    }
    let d = digits_value(a + b);
    assert(d * pk == m) by {
        assert((q * pb + digits_value(b)) * pk == q * (pb * pk) + digits_value(b) * pk)
            by (nonlinear_arith);
    }
    assert(scaled(d, k) == m);
    assert(d <= m) by {
        assert(d * pk >= d) by (nonlinear_arith)
            requires
                pk >= 1,
        ;
    }
}

/// The curly-brace form of a number reads back as that number.
pub(crate) proof fn lemma_plain_real(u: int)
    requires
        i64::MIN <= u <= i64::MAX,
    ensures
        loose_real(plain_real_text(u)) == Some(u),
        plain_real_text(u).len() > 0,
        forall|j: int| 0 <= j < plain_real_text(u).len() ==> plain_char_ok(#[trigger] plain_real_text(u)[j]),
{
    if abs(u) % 10000 == 0 {
        lemma_plain_whole(u);
    } else {
        lemma_plain_fraction(u);
    }
}

proof fn lemma_commified_front(vs: Seq<int>)
    requires
        vs.len() >= 1,
    ensures
        commified(vs) == if vs.len() == 1 {
            plain_real_text(vs[0])
        } else {
            plain_real_text(vs[0]) + seq![',', ' '] + commified(vs.drop_first())
        },
    decreases vs.len(),
{
    if vs.len() > 2 {
        lemma_commified_front(vs.drop_last());
        assert(vs.drop_last().drop_first() == vs.drop_first().drop_last());
        assert(vs.drop_first().last() == vs.last());
        assert(vs.drop_last()[0] == vs[0]);
        let a = plain_real_text(vs[0]);
        let mid = commified(vs.drop_first().drop_last());
        let z = plain_real_text(vs.last());
        assert(commified(vs) == a + seq![',', ' '] + mid + seq![',', ' '] + z);
        assert(commified(vs.drop_first()) == mid + seq![',', ' '] + z);
        assert(commified(vs) =~= a + seq![',', ' '] + commified(vs.drop_first()));
    } else if vs.len() == 2 {
        assert(vs.drop_last() == seq![vs[0]]);
        assert(vs.drop_first() == seq![vs[1]]);
        assert(commified(vs.drop_first()) == plain_real_text(vs[1]));
        assert(commified(vs.drop_last()) == plain_real_text(vs[0]));
        assert(vs.last() == vs[1]);
    }
}

proof fn lemma_numbers_shift(p: Seq<char>, b: Seq<char>, j: int)
    requires
        0 <= j <= b.len(),
    ensures
        numbers_from(p + b, p.len() + j) == numbers_from(b, j),
    decreases b.len() - j,
{
    let s = p + b;
    let i = p.len() + j;
    assert(s.subrange(i, s.len() as int) == b.subrange(j, b.len() as int));
    let k = comma_index(b, j);
    crate::codec::lemma_comma_run_bound(b.subrange(j, b.len() as int));
    assert(comma_index(s, i) == p.len() + k);
    assert(s.subrange(i, p.len() + k) =~= b.subrange(j, k));
    if k < b.len() {
        lemma_numbers_shift(p, b, k + 1);
    }
}

proof fn lemma_trim_plain(lead: Seq<char>, t: Seq<char>)
    requires
        lead.len() == 0 || lead == seq![' '],
        t.len() > 0,
        !is_unicode_ws(t[0]),
        !is_unicode_ws(t.last()),
    ensures
        trim_ws(lead + t) == t,
{
    assert(trim_ws(t) == t);
    if lead.len() == 1 {
        assert((lead + t)[0] == ' ');
        assert((lead + t).drop_first() == t);
        assert((' ' as u32) == 0x20);
        assert(is_unicode_ws(' '));
    } else {
        assert(lead + t == t);
    }
}

#[verifier::rlimit(100)]
proof fn lemma_numbers_commified(vs: Seq<int>, lead: Seq<char>)
    requires
        vs.len() >= 1,
        lead.len() == 0 || lead == seq![' '],
        forall|i: int| 0 <= i < vs.len() ==> i64::MIN <= #[trigger] vs[i] <= i64::MAX,
    ensures
        numbers_from(lead + commified(vs), 0) == Some(vs),
    decreases vs.len(),
{
    lemma_commified_front(vs);
    lemma_plain_real(vs[0]);
    let h = plain_real_text(vs[0]);
    let w = lead + commified(vs);
    let lh = lead + h;
    assert forall|i: int| 0 <= i < lh.len() implies #[trigger] lh[i] != ',' by {
        if i >= lead.len() {
            assert(lh[i] == h[i - lead.len()]);
            assert(plain_char_ok(h[i - lead.len()]));
        }
    }
    lemma_trim_plain(lead, h);
    if vs.len() == 1 {
        assert(w == lh + Seq::<char>::empty());
        crate::codec::lemma_comma_run_prefix(lh, Seq::empty());
        assert(w.subrange(0, w.len() as int) == w);
        assert(w.subrange(0, lh.len() as int) == lh);
        assert(vs == seq![vs[0]]);
    } else {
        let rest = seq![' '] + commified(vs.drop_first());
        assert(w =~= lh + (seq![','] + rest));
        crate::codec::lemma_comma_run_prefix(lh, seq![','] + rest);
        assert(w.subrange(0, w.len() as int) == w);
        assert(w.subrange(0, lh.len() as int) == lh);
        lemma_numbers_commified(vs.drop_first(), seq![' ']);
        assert(w =~= (lh + seq![',']) + rest);
        lemma_numbers_shift(lh + seq![','], rest, 0);
        assert(seq![vs[0]] + vs.drop_first() == vs);
    }
}

/// Reading the curly-brace text of some numbers gives them back.
pub proof fn lemma_curly_round_trip(vs: Seq<int>)
    requires
        vs.len() >= 1,
        forall|i: int| 0 <= i < vs.len() ==> i64::MIN <= #[trigger] vs[i] <= i64::MAX,
    ensures
        curly_numbers(curly_text(vs)) == Some(vs),
{
    lemma_commified_front(vs);
    lemma_plain_real(vs[0]);
    let c = commified(vs);
    let t = curly_text(vs);
    assert(c[0] == plain_real_text(vs[0])[0]);
    assert(plain_char_ok(c[0]));
    lemma_commified_last(vs);
    assert(t.drop_first() == c + seq!['}']);
    assert((c + seq!['}']).drop_last() == c);
    assert(!is_brace((c + seq!['}'])[0]));
    assert(strip_braces(c) == c);
    assert(strip_braces(c + seq!['}']) == c);
    assert(t[0] == '{');
    assert(strip_braces(t) == c);
    assert(Seq::<char>::empty() + c == c);
    lemma_numbers_commified(vs, Seq::empty());
}

proof fn lemma_commified_last(vs: Seq<int>)
    requires
        vs.len() >= 1,
        forall|i: int| 0 <= i < vs.len() ==> i64::MIN <= #[trigger] vs[i] <= i64::MAX,
    ensures
        commified(vs).len() > 0,
        plain_char_ok(commified(vs).last()),
{
    lemma_plain_real(vs.last());
    if vs.len() == 1 {
    } else {
        let h = plain_real_text(vs.last());
        assert(commified(vs).last() == h.last());
    }
}

/// Encoding an alignment zone and decoding the text gives the same zone back.
pub proof fn lemma_alignment_zone_round_trip(z: AlignmentZone)
    ensures
        curly_numbers(curly_text(seq![z.position.units as int, z.overshoot.units as int]))
            == Some(seq![z.position.units as int, z.overshoot.units as int]),
{
    lemma_curly_round_trip(seq![z.position.units as int, z.overshoot.units as int]);
}

/// Encoding a transform and decoding the text gives the same transform back.
pub proof fn lemma_transform_round_trip(x: Transform)
    ensures
        curly_numbers(curly_text(transform_units(x))) == Some(transform_units(x)),
{
    lemma_curly_round_trip(transform_units(x));
}

} // verus!
