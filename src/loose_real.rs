use vstd::prelude::*;

use crate::parse::{copy_range, digits_capped, TWO_POW_63};
use crate::parse_spec::{all_digits, digits_value, point_index};

verus! {

pub open spec fn pow10(n: nat) -> nat
    decreases n,
{
    if n == 0 {
        1
    } else {
        10 * pow10((n - 1) as nat)
    }
}

/// The index of the first `e` or `E` in `t` at or after `i`, or `t.len()`.
pub open spec fn exp_index(t: Seq<char>, i: int) -> int
    decreases t.len() - i,
{
    if i >= t.len() {
        t.len() as int
    } else if t[i] == 'e' || t[i] == 'E' {
        i
    } else {
        exp_index(t, i + 1)
    }
}

pub open spec fn signs(t: Seq<char>) -> int {
    if t.len() > 0 && (t[0] == '-' || t[0] == '+') {
        1
    } else {
        0
    }
}

pub open spec fn negated(t: Seq<char>) -> bool {
    t.len() > 0 && t[0] == '-'
}

/// `d * 10^k` rounded half away from zero to a whole number.
pub open spec fn scaled(d: nat, k: int) -> nat {
    if k >= 0 {
        d * pow10(k as nat)
    } else {
        (2 * d + pow10((-k) as nat)) / (2 * pow10((-k) as nat))
    }
}

pub open spec fn exp_at(t: Seq<char>) -> int {
    exp_index(t, signs(t))
}

/// The digits and point before the exponent.
pub open spec fn mantissa(t: Seq<char>) -> Seq<char> {
    t.subrange(signs(t), exp_at(t))
}

/// The digits before the decimal point.
pub open spec fn int_part(t: Seq<char>) -> Seq<char> {
    mantissa(t).subrange(0, point_index(mantissa(t), 0))
}

/// The digits after the decimal point.
pub open spec fn frac_part(t: Seq<char>) -> Seq<char> {
    let m = mantissa(t);
    let p = point_index(m, 0);
    if p < m.len() {
        m.subrange(p + 1, m.len() as int)
    } else {
        Seq::empty()
    }
}

/// What follows the `e`, or nothing.
pub open spec fn exponent_text(t: Seq<char>) -> Seq<char> {
    if exp_at(t) < t.len() {
        t.subrange(exp_at(t) + 1, t.len() as int)
    } else {
        Seq::empty()
    }
}

/// The digits of the exponent.
pub open spec fn exp_digits(t: Seq<char>) -> Seq<char> {
    let x = exponent_text(t);
    x.subrange(signs(x), x.len() as int)
}

pub open spec fn exponent(t: Seq<char>) -> int {
    if exp_at(t) < t.len() {
        if negated(exponent_text(t)) {
            -digits_value(exp_digits(t))
        } else {
            digits_value(exp_digits(t)) as int
        }
    } else {
        0
    }
}

/// A number written with an optional sign, digits with an optional decimal
/// point (at least one digit), and an optional exponent (`e` or `E`, an
/// optional sign, digits), read in ten-thousandths rounded half away from
/// zero. `None` when it is not such a number, when its digits without the
/// point or the digits of its exponent denote more than 2^63, or when the
/// result does not fit in 64 bits.
pub open spec fn loose_real(t: Seq<char>) -> Option<int> {
    let a = int_part(t);
    let b = frac_part(t);
    let c = exp_digits(t);
    let d = digits_value(a + b);
    let mag = scaled(d, exponent(t) - b.len() + 4);
    let v: int = if negated(t) {
        -mag
    } else {
        mag as int
    };
    if all_digits(a) && all_digits(b) && a.len() + b.len() > 0 && (exp_at(t) < t.len() ==> (
    c.len() > 0 && all_digits(c) && digits_value(c) <= TWO_POW_63)) && d <= TWO_POW_63
        && i64::MIN <= v <= i64::MAX {
        Some(v)
    } else {
        None
    }
}

proof fn lemma_pow10_grows(a: nat, b: nat)
    requires
        a <= b,
    ensures
        pow10(a) <= pow10(b),
        pow10(b) >= 1,
    decreases b,
{
    if b > 0 {
        if a < b {
            lemma_pow10_grows(a, (b - 1) as nat);
        }
        lemma_pow10_grows(0, (b - 1) as nat);
    }
}

proof fn lemma_pow10_19()
    ensures
        pow10(19) == 10000000000000000000,
{
    reveal_with_fuel(pow10, 20);
}

proof fn lemma_pow10_20()
    ensures
        pow10(20) == 100000000000000000000,
{
    reveal_with_fuel(pow10, 21);
}

fn pow10_exec(n: u32) -> (r: u128)
    requires
        n <= 20,
    ensures
        r == pow10(n as nat),
    decreases n,
{
    if n == 0 {
        1
    } else {
        let r = pow10_exec(n - 1);
        proof {
            lemma_pow10_grows((n - 1) as nat, 19);
            reveal_with_fuel(pow10, 20);
        }
        assert(pow10(19) == 10000000000000000000) by {
            reveal_with_fuel(pow10, 20);
        }
        10 * r
    }
}

/// `d * 10^k` rounded, when `d <= 2^63`; `None` when it exceeds `2^63`.
fn scaled_capped(d: u64, neg_k: bool, k_mag: u128) -> (r: Option<u64>)
    requires
        d <= TWO_POW_63,
    ensures
        ({
            let k: int = if neg_k { -(k_mag as int) } else { k_mag as int };
            &&& scaled(d as nat, k) <= TWO_POW_63 ==> r == Some(scaled(d as nat, k) as u64)
            &&& scaled(d as nat, k) > TWO_POW_63 ==> r is None
        }),
{
    proof {
        lemma_pow10_20();
    }
    if !neg_k || k_mag == 0 {
        if d == 0 {
            return Some(0);
        }
        if k_mag > 19 {
            proof {
                lemma_pow10_grows(20, k_mag as nat);
                assert(d as nat * pow10(k_mag as nat) >= pow10(k_mag as nat)) by (nonlinear_arith)
                    requires
                        d >= 1,
                ;
            }
            return None;
        }
        let p = pow10_exec(k_mag as u32);
        proof {
            lemma_pow10_grows(k_mag as nat, 19);
            lemma_pow10_19();
            assert((d as nat) * pow10(k_mag as nat) <= TWO_POW_63 * 10000000000000000000) by (nonlinear_arith)
                requires
                    d <= TWO_POW_63,
                    pow10(k_mag as nat) <= 10000000000000000000,
            ;
        }
        let v: u128 = (d as u128) * p;
        if v > TWO_POW_63 as u128 {
            None
        } else {
            Some(v as u64)
        }
    } else {
        if k_mag > 19 {
            proof {
                lemma_pow10_grows(20, k_mag as nat);
                let q = pow10(k_mag as nat);
                assert((2 * (d as nat) + q) / (2 * q) == 0) by (nonlinear_arith)
                    requires
                        q >= 100000000000000000000,
                        d <= TWO_POW_63,
                ;
            }
            return Some(0);
        }
        let p = pow10_exec(k_mag as u32);
        proof {
            lemma_pow10_grows(k_mag as nat, 19);
            lemma_pow10_grows(0, k_mag as nat);
            lemma_pow10_19();
        }
        let v: u128 = (2 * (d as u128) + p) / (2 * p);
        proof {
            lemma_pow10_grows(0, k_mag as nat);
            let q = pow10(k_mag as nat);
            assert((2 * (d as nat) + q) / (2 * q) <= d) by (nonlinear_arith)
                requires
                    q >= 10,
            ;
        }
        Some(v as u64)
    }
}

fn index_of_exp(t: &Vec<char>, i: usize) -> (r: usize)
    requires
        i <= t@.len(),
    ensures
        r as int == exp_index(t@, i as int),
        i <= r <= t@.len(),
{
    let mut j = i;
    while j < t.len() && t[j] != 'e' && t[j] != 'E'
        invariant
            i <= j <= t@.len(),
            exp_index(t@, j as int) == exp_index(t@, i as int),
        decreases t@.len() - j,
    {
        j = j + 1;
    }
    j
}

fn mantissa_parts(t: &Vec<char>) -> (r: (Vec<char>, Vec<char>))
    ensures
        r.0@ == int_part(t@),
        r.1@ == frac_part(t@),
{
    let sl: usize = if t.len() > 0 && (t[0] == '-' || t[0] == '+') {
        1
    } else {
        0
    };
    let e = index_of_exp(t, sl);
    let m = copy_range(t, sl, e);
    assert(m@ == mantissa(t@));
    let mut p: usize = 0;
    while p < m.len() && m[p] != '.'
        invariant
            p <= m@.len(),
            point_index(m@, p as int) == point_index(m@, 0),
        decreases m@.len() - p,
    {
        p = p + 1;
    }
    let q = if p < m.len() {
        p + 1
    } else {
        m.len()
    };
    let a = copy_range(&m, 0, p);
    let b = copy_range(&m, q, m.len());
    assert(b@ =~= frac_part(t@));
    (a, b)
}

fn exponent_parts(t: &Vec<char>) -> (r: (bool, bool, Vec<char>))
    ensures
        r.0 == (exp_at(t@) < t@.len()),
        r.1 == negated(exponent_text(t@)),
        r.2@ == exp_digits(t@),
{
    let sl: usize = if t.len() > 0 && (t[0] == '-' || t[0] == '+') {
        1
    } else {
        0
    };
    let e = index_of_exp(t, sl);
    let x = if e < t.len() {
        copy_range(t, e + 1, t.len())
    } else {
        Vec::new()
    };
    assert(x@ =~= exponent_text(t@));
    let xs: usize = if x.len() > 0 && (x[0] == '-' || x[0] == '+') {
        1
    } else {
        0
    };
    let xneg = x.len() > 0 && x[0] == '-';
    let c = copy_range(&x, xs, x.len());
    (e < t.len(), xneg, c)
}

fn concat_chars(a: &Vec<char>, b: &Vec<char>) -> (r: Vec<char>)
    ensures
        r@ == a@ + b@,
{
    let mut ab = a.clone();
    let mut j: usize = 0;
    assert(ab@ =~= a@ + b@.take(0));
    while j < b.len()
        invariant
            j <= b@.len(),
            ab@ == a@ + b@.take(j as int),
        decreases b@.len() - j,
    {
        ab.push(b[j]);
        j = j + 1;
        assert(ab@ =~= a@ + b@.take(j as int));
    }
    assert(b@.take(b@.len() as int) == b@);
    ab
}

/// Reads a number as [`loose_real`] does.
#[verifier::rlimit(50)]
pub fn loose_real_of(t: &Vec<char>) -> (r: Option<i64>)
    ensures
        match loose_real(t@) {
            Some(v) => r == Some(v as i64),
            None => r is None,
        },
{
    let (a, b) = mantissa_parts(t);
    let (has_exp, xneg, c) = exponent_parts(t);
    let neg = t.len() > 0 && t[0] == '-';
    let ab = concat_chars(&a, &b);
    assert(a@.subrange(0, a@.len() as int) == a@);
    assert(b@.subrange(0, b@.len() as int) == b@);
    assert(c@.subrange(0, c@.len() as int) == c@);
    assert(ab@.subrange(0, ab@.len() as int) == ab@);
    let a_ok = digits_capped(&a, 0, a.len()).is_some();
    let b_ok = digits_capped(&b, 0, b.len()).is_some();
    if !a_ok || !b_ok || (a.len() == 0 && b.len() == 0) {
        return None;
    }
    let d = match digits_capped(&ab, 0, ab.len()) {
        Some(d) => d,
        None => {
            return None;
        },
    };
    if d > TWO_POW_63 {
        return None;
    }
    let mut exp_mag: u64 = 0;
    if has_exp {
        if c.len() == 0 {
            return None;
        }
        match digits_capped(&c, 0, c.len()) {
            Some(v) => {
                if v > TWO_POW_63 {
                    return None;
                }
                exp_mag = v;
            },
            None => {
                return None;
            },
        }
    }
    let bl = b.len() as u128;
    let wide_ex: i128 = if has_exp && xneg {
        -(exp_mag as i128)
    } else {
        exp_mag as i128
    };
    assert(wide_ex == exponent(t@));
    let wide_k: i128 = wide_ex - bl as i128 + 4;
    let neg_k = wide_k < 0;
    let k_mag: u128 = if neg_k {
        (-wide_k) as u128
    } else {
        wide_k as u128
    };
    let mag = match scaled_capped(d, neg_k, k_mag) {
        Some(m) => m,
        None => {
            return None;
        },
    };
    if neg {
        Some((-(mag as i128)) as i64)
    } else if mag < TWO_POW_63 {
        Some(mag as i64)
    } else {
        None
    }
}

} // verus!
