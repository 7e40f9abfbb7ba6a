//! Exact rational numbers — NEXT's only number type.
//!
//! A [`Rational`] is a numerator over a positive denominator, both
//! [`BigNum`]s. Constructors reduce by the greatest common divisor; equality
//! and order are by value, so `1/2` and `0.5` are the same number.

use crate::bignum::{all_digits, big_from_radix_digits, big_pow, digit_of, digits_value, big_add, big_div_floor, big_eq, big_from_i64, big_gcd, big_lt, big_mul, big_neg, BigNum};

use vstd::arithmetic::power::pow;
use vstd::prelude::*;

verus! {

/// Two fractions `(n, d)` denote the same number.
pub open spec fn same_value(p: (int, int), q: (int, int)) -> bool {
    p.0 * q.1 == q.0 * p.1
}

/// `p < q` for fractions with positive denominators.
pub open spec fn value_lt(p: (int, int), q: (int, int)) -> bool {
    p.0 * q.1 < q.0 * p.1
}

/// `a / b` truncated toward zero.
pub open spec fn trunc_quotient(a: int, b: int) -> int {
    let m = (if a < 0 { -a } else { a }) / (if b < 0 { -b } else { b });
    if (a < 0) == (b < 0) {
        m
    } else {
        -m
    }
}

/// The remainder of `p` by `q` whose sign follows the dividend: `p - n·q`
/// for `n` the quotient `p / q` truncated toward zero.
pub open spec fn frac_rem(p: (int, int), q: (int, int)) -> (int, int) {
    let n = trunc_quotient(p.0 * q.1, p.1 * q.0);
    (p.0 * q.1 - n * q.0 * p.1, p.1 * q.1)
}

/// A well-formed fraction has a positive denominator.
pub open spec fn frac_wf(p: (int, int)) -> bool {
    p.1 > 0
}

/// An exact rational number.
#[derive(Debug)]
pub struct Rational {
    num: BigNum,
    den: BigNum,
}

impl View for Rational {
    type V = (int, int);

    closed spec fn view(&self) -> (int, int) {
        (self.num@, self.den@)
    }
}

impl PartialEq for Rational {
    fn eq(&self, other: &Rational) -> (r: bool) {
        self.eq_value(other)
    }
}

impl vstd::std_specs::cmp::PartialEqSpecImpl for Rational {
    open spec fn obeys_eq_spec() -> bool {
        true
    }

    open spec fn eq_spec(&self, other: &Rational) -> bool {
        same_value(self@, other@)
    }
}

impl Clone for Rational {
    fn clone(&self) -> (r: Self)
        ensures
            r@ == self@,
            r.wf(),
    {
        proof {
            use_type_invariant(self);
        }
        Rational { num: self.num.clone(), den: self.den.clone() }
    }
}

/// Same value is an equivalence on well-formed fractions.
pub proof fn lemma_same_value_transitive(p: (int, int), q: (int, int), r: (int, int))
    requires
        frac_wf(q),
        same_value(p, q),
        same_value(q, r),
    ensures
        same_value(p, r),
{
    assert(p.0 * q.1 * r.1 == q.0 * p.1 * r.1) by (nonlinear_arith)
        requires
            p.0 * q.1 == q.0 * p.1,
    ;
    assert(q.0 * r.1 * p.1 == r.0 * q.1 * p.1) by (nonlinear_arith)
        requires
            q.0 * r.1 == r.0 * q.1,
    ;
    assert(p.0 * r.1 * q.1 == r.0 * p.1 * q.1) by (nonlinear_arith)
        requires
            p.0 * q.1 * r.1 == q.0 * p.1 * r.1,
            q.0 * r.1 * p.1 == r.0 * q.1 * p.1,
    ;
    assert(p.0 * r.1 == r.0 * p.1) by (nonlinear_arith)
        requires
            p.0 * r.1 * q.1 == r.0 * p.1 * q.1,
            q.1 > 0,
    ;
}

impl Rational {
    /// Every rational keeps a positive denominator.
    #[verifier::type_invariant]
    spec fn positive_denominator(self) -> bool {
        self.den@ > 0
    }

    /// Well-formed: the denominator is positive.
    pub open spec fn wf(&self) -> bool {
        frac_wf(self@)
    }

    /// The numerator.
    pub fn numer(&self) -> (r: &BigNum)
        ensures
            r@ == self@.0,
    {
        &self.num
    }

    /// The denominator.
    pub fn denom(&self) -> (r: &BigNum)
        ensures
            r@ == self@.1,
    {
        &self.den
    }

    /// The integer `n` as a rational.
    pub fn from_integer(n: BigNum) -> (r: Rational)
        ensures
            r.wf(),
            r@ == (n@, 1int),
    {
        Rational { num: n, den: big_from_i64(1) }
    }

    /// The integer `n` as a rational.
    pub fn from(n: i64) -> (r: Rational)
        ensures
            r.wf(),
            r@ == (n as int, 1int),
    {
        Rational { num: big_from_i64(n), den: big_from_i64(1) }
    }

    /// `numer / denom`, reduced to lowest terms with a positive denominator.
    pub fn new(numer: BigNum, denom: BigNum) -> (r: Rational)
        requires
            denom@ != 0,
        ensures
            r.wf(),
            same_value(r@, (numer@, denom@)),
    {
        let zero = big_from_i64(0);
        let (n, d) = if big_lt(&denom, &zero) {
            (big_neg(&numer), big_neg(&denom))
        } else {
            (numer, denom)
        };
        assert(same_value((n@, d@), (numer@, denom@))) by (nonlinear_arith)
            requires
                (n@ == numer@ && d@ == denom@) || (n@ == -numer@ && d@ == -denom@),
        ;
        let g = big_gcd(&n, &d);
        let rn = big_div_floor(&n, &g);
        let rd = big_div_floor(&d, &g);
        proof {
            let gv = g@;
            assert(n@ == gv * rn@ + n@ % gv) by {
                vstd::arithmetic::div_mod::lemma_fundamental_div_mod(n@, gv);
            }
            assert(d@ == gv * rd@ + d@ % gv) by {
                vstd::arithmetic::div_mod::lemma_fundamental_div_mod(d@, gv);
            }
            assert(rd@ > 0) by (nonlinear_arith)
                requires
                    d@ == gv * rd@,
                    d@ > 0,
                    gv > 0,
            ;
            assert(same_value((rn@, rd@), (n@, d@))) by (nonlinear_arith)
                requires
                    n@ == gv * rn@,
                    d@ == gv * rd@,
            ;
            lemma_same_value_transitive((rn@, rd@), (n@, d@), (numer@, denom@));
        }
        Rational { num: rn, den: rd }
    }

    /// `self + other`.
    pub fn add(&self, other: &Rational) -> (r: Rational)
        requires
            self.wf(),
            other.wf(),
        ensures
            r.wf(),
            same_value(r@, (self@.0 * other@.1 + other@.0 * self@.1, self@.1 * other@.1)),
    {
        let a = big_mul(&self.num, &other.den);
        let b = big_mul(&other.num, &self.den);
        let n = big_add(&a, &b);
        let d = big_mul(&self.den, &other.den);
        proof {
            let (x, y) = (self@.1, other@.1);
            assert(x * y > 0) by (nonlinear_arith)
                requires
                    x > 0,
                    y > 0,
            ;
        }
        Rational::new(n, d)
    }

    /// `-self`.
    pub fn neg(&self) -> (r: Rational)
        requires
            self.wf(),
        ensures
            r.wf(),
            r@ == (-self@.0, self@.1),
    {
        Rational { num: big_neg(&self.num), den: self.den.clone() }
    }

    /// `self - other`.
    pub fn sub(&self, other: &Rational) -> (r: Rational)
        requires
            self.wf(),
            other.wf(),
        ensures
            r.wf(),
            same_value(r@, (self@.0 * other@.1 - other@.0 * self@.1, self@.1 * other@.1)),
    {
        let m = other.neg();
        assert((-other@.0) * self@.1 == -(other@.0 * self@.1)) by (nonlinear_arith);
        self.add(&m)
    }

    /// `self * other`.
    pub fn mul(&self, other: &Rational) -> (r: Rational)
        requires
            self.wf(),
            other.wf(),
        ensures
            r.wf(),
            same_value(r@, (self@.0 * other@.0, self@.1 * other@.1)),
    {
        let n = big_mul(&self.num, &other.num);
        let d = big_mul(&self.den, &other.den);
        proof {
            let (x, y) = (self@.1, other@.1);
            assert(x * y > 0) by (nonlinear_arith)
                requires
                    x > 0,
                    y > 0,
            ;
        }
        Rational::new(n, d)
    }

    /// `self / other` for a non-zero divisor.
    pub fn div(&self, other: &Rational) -> (r: Rational)
        requires
            self.wf(),
            other.wf(),
            other@.0 != 0,
        ensures
            r.wf(),
            same_value(r@, (self@.0 * other@.1, self@.1 * other@.0)),
    {
        let n = big_mul(&self.num, &other.den);
        let d = big_mul(&self.den, &other.num);
        proof {
            let (x, y) = (self@.1, other@.0);
            assert(x * y != 0) by (nonlinear_arith)
                requires
                    x > 0,
                    y != 0,
            ;
        }
        Rational::new(n, d)
    }

    /// Whether the value is zero.
    pub fn is_zero(&self) -> (r: bool)
        requires
            self.wf(),
        ensures
            r == (self@.0 == 0),
    {
        big_eq(&self.num, &big_from_i64(0))
    }

    /// Whether the value is an integer.
    pub fn is_integer(&self) -> (r: bool)
        requires
            self.wf(),
        ensures
            r == (self@.0 % self@.1 == 0),
    {
        let q = big_div_floor(&self.num, &self.den);
        let back = big_mul(&q, &self.den);
        proof {
            vstd::arithmetic::div_mod::lemma_fundamental_div_mod(self@.0, self@.1);
        }
        big_eq(&back, &self.num)
    }

    /// Value equality.
    pub fn eq_value(&self, other: &Rational) -> (r: bool)
        ensures
            r == same_value(self@, other@),
    {
        big_eq(&big_mul(&self.num, &other.den), &big_mul(&other.num, &self.den))
    }

    /// Every rational is well formed: a check with no run-time effect.
    pub fn well_formed(&self)
        ensures
            self.wf(),
    {
        proof {
            use_type_invariant(self);
        }
    }

    /// Whether the two have the same numerator and denominator.
    pub fn same_repr(&self, other: &Rational) -> (r: bool)
        ensures
            r == (self@ == other@),
    {
        big_eq(&self.num, &other.num) && big_eq(&self.den, &other.den)
    }

    /// `self < other`.
    pub fn lt(&self, other: &Rational) -> (r: bool)
        ensures
            r == value_lt(self@, other@),
    {
        big_lt(&big_mul(&self.num, &other.den), &big_mul(&other.num, &self.den))
    }

    /// `self <= other`.
    pub fn le(&self, other: &Rational) -> (r: bool)
        ensures
            r == (value_lt(self@, other@) || same_value(self@, other@)),
    {
        self.lt(other) || self.eq_value(other)
    }
}


/// An ASCII decimal digit.
pub open spec fn is_dec(c: char) -> bool {
    '0' <= c && c <= '9'
}

/// The length of the run of decimal digits starting at `i`.
pub open spec fn dec_run(s: Seq<char>, i: int) -> nat
    decreases s.len() - i,
{
    if 0 <= i < s.len() && is_dec(s[i]) {
        1 + dec_run(s, i + 1)
    } else {
        0
    }
}

/// The value of the decimal digits of `s` in `[a, b)`.
pub open spec fn dec_value(s: Seq<char>, a: int, b: int) -> int {
    digits_value(s.subrange(a, b), 10) as int
}

/// The number a decimal numeral `int[.frac][(e|E)[+|-]exp]` denotes, as a
/// fraction, or `None` when `s` is not such a numeral (or its exponent exceeds
/// `u32::MAX`).
pub open spec fn decimal_literal(s: Seq<char>) -> Option<(int, int)> {
    let a = dec_run(s, 0) as int;
    let has_dot = a < s.len() && s[a] == '.';
    let f = if has_dot { dec_run(s, a + 1) as int } else { 0 };
    let p = if has_dot { a + 1 + f } else { a };
    let has_exp = p < s.len() && (s[p] == 'e' || s[p] == 'E');
    let has_sign = has_exp && p + 1 < s.len() && (s[p + 1] == '+' || s[p + 1] == '-');
    let neg = has_sign && s[p + 1] == '-';
    let q = if has_sign { p + 2 } else { p + 1 };
    let k = if has_exp { dec_run(s, q) as int } else { 0 };
    let end = if has_exp { q + k } else { p };
    let e = if has_exp { dec_value(s, q, end) } else { 0 };
    let fv = if has_dot { dec_value(s, a + 1, a + 1 + f) } else { 0 };
    let m = dec_value(s, 0, a) * pow(10, f as nat) + fv;
    if a == 0 || (has_dot && f == 0) || (has_exp && k == 0) || end != s.len() || e > u32::MAX
        || (neg && f + e > usize::MAX) {
        None
    } else if neg {
        Some((m, pow(10, (f + e) as nat)))
    } else {
        Some((m * pow(10, e as nat), pow(10, f as nat)))
    }
}

pub(crate) proof fn lemma_dec_run(s: Seq<char>, start: int, end: int)
    requires
        0 <= start <= end <= s.len(),
        forall|k: int| start <= k < end ==> is_dec(#[trigger] s[k]),
        end == s.len() || !is_dec(s[end]),
    ensures
        dec_run(s, start) == end - start,
    decreases end - start,
{
    if start < end {
        lemma_dec_run(s, start + 1, end);
    }
}

/// The decimal digits of `s` from `start`: the digits and where the run ends.
fn take_dec_digits(s: &Vec<char>, start: usize) -> (r: (Vec<char>, usize))
    requires
        start <= s@.len(),
    ensures
        r.1 == start + dec_run(s@, start as int),
        r.1 <= s@.len(),
        r.0@ == s@.subrange(start as int, r.1 as int),
        all_digits(r.0@, 10),
{
    let mut out: Vec<char> = Vec::new();
    let mut i = start;
    while i < s.len() && '0' <= s[i] && s[i] <= '9'
        invariant
            start <= i <= s@.len(),
            out@ == s@.subrange(start as int, i as int),
            forall|k: int| start <= k < i ==> is_dec(#[trigger] s@[k]),
            all_digits(out@, 10),
        decreases s@.len() - i,
    {
        out.push(s[i]);
        i = i + 1;
    }
    proof {
        lemma_dec_run(s@, start as int, i as int);
    }
    (out, i)
}

/// The value of a run of decimal digits (zero for an empty run).
fn dec_digits_value(d: &Vec<char>) -> (r: BigNum)
    requires
        all_digits(d@, 10),
    ensures
        r@ == digits_value(d@, 10),
{
    if d.len() == 0 {
        big_from_i64(0)
    } else {
        big_from_radix_digits(d, 10)
    }
}

/// The exponent of a numeral as a `u32`, or `None` when it is larger.
fn small_exponent(d: &Vec<char>) -> (r: Option<u32>)
    requires
        all_digits(d@, 10),
    ensures
        r is Some <==> digits_value(d@, 10) <= u32::MAX,
        r matches Some(e) ==> e == digits_value(d@, 10),
    decreases d@.len(),
{
    let mut acc: u64 = 0;
    let mut i: usize = 0;
    while i < d.len()
        invariant
            i <= d@.len(),
            all_digits(d@, 10),
            acc == digits_value(d@.subrange(0, i as int), 10),
            acc <= u32::MAX,
        decreases d@.len() - i,
    {
        let c = d[i];
        assert(digit_of(d@[i as int]) < 10);
        let dv: u64 = (c as u64) - ('0' as u64);
        proof {
            assert(d@.subrange(0, i + 1).drop_last() == d@.subrange(0, i as int));
        }
        let next = acc * 10 + dv;
        if next > 4294967295 {
            proof {
                lemma_digits_monotone(d@, (i + 1) as int);
            }
            return None;
        }
        acc = next;
        i = i + 1;
    }
    assert(d@.subrange(0, d@.len() as int) == d@);
    Some(acc as u32)
}

proof fn lemma_digits_monotone(s: Seq<char>, i: int)
    requires
        0 <= i <= s.len(),
        all_digits(s, 10),
    ensures
        digits_value(s.subrange(0, i), 10) <= digits_value(s, 10),
    decreases s.len() - i,
{
    if i < s.len() {
        lemma_digits_monotone(s, i + 1);
        assert(s.subrange(0, i + 1).drop_last() == s.subrange(0, i));
        assert(digits_value(s.subrange(0, i + 1), 10) == digits_value(s.subrange(0, i), 10) * 10
            + digit_of(s[i]));
    } else {
        assert(s.subrange(0, i) == s);
    }
}

impl Rational {
    /// Parse a decimal numeral `int[.frac][(e|E)[+|-]exp]` exactly.
    pub fn from_decimal_chars(s: &Vec<char>) -> (r: Option<Rational>)
        ensures
            r is Some <==> decimal_literal(s@) is Some,
            r matches Some(v) ==> v.wf() && same_value(v@, decimal_literal(s@)->0),
    {
        let n = s.len();
        let (int_digits, a) = take_dec_digits(s, 0);
        assert(s@.subrange(0, a as int) == int_digits@);
        if a == 0 {
            return None;
        }
        let mut frac_digits: Vec<char> = Vec::new();
        let mut p = a;
        let has_dot = a < n && s[a] == '.';
        if has_dot {
            let (fd, e) = take_dec_digits(s, a + 1);
            if e == a + 1 {
                return None;
            }
            assert(fd@.len() == e - (a + 1));
            frac_digits = fd;
            p = e;
        }
        let f = frac_digits.len();
        assert(has_dot ==> frac_digits@ == s@.subrange(a + 1, a + 1 + f));
        assert(!has_dot ==> f == 0);
        let has_exp = p < n && (s[p] == 'e' || s[p] == 'E');
        let mut neg = false;
        let mut e: u32 = 0;
        let mut end = p;
        if has_exp {
            let has_sign = p + 1 < n && (s[p + 1] == '+' || s[p + 1] == '-');
            neg = has_sign && s[p + 1] == '-';
            let q = if has_sign { p + 2 } else { p + 1 };
            let (ed, k_end) = take_dec_digits(s, q);
            if k_end == q {
                return None;
            }
            end = k_end;
            if end != n {
                return None;
            }
            match small_exponent(&ed) {
                None => {
                    return None;
                },
                Some(v) => {
                    e = v;
                },
            }
        }
        if end != n {
            return None;
        }
        let ten = big_from_i64(10);
        let iv = dec_digits_value(&int_digits);
        let fv = dec_digits_value(&frac_digits);
        let scale = big_pow(&ten, f);
        let m = big_add(&big_mul(&iv, &scale), &fv);
        proof {
            vstd::arithmetic::power::lemma_pow_positive(10, f as nat);
            vstd::arithmetic::power::lemma_pow_positive(10, (f + e) as nat);
            vstd::arithmetic::power::lemma_pow_positive(10, e as nat);
        }
        if neg {
            if f > usize::MAX - e as usize {
                return None;
            }
            let den = big_pow(&ten, f + e as usize);
            Some(Rational { num: m, den })
        } else {
            let num = big_mul(&m, &big_pow(&ten, e as usize));
            Some(Rational { num, den: scale })
        }
    }

    /// Parse a decimal numeral `int[.frac][(e|E)[+|-]exp]` exactly.
    pub fn from_decimal(s: &str) -> (r: Option<Rational>)
        ensures
            r is Some <==> decimal_literal(s@) is Some,
            r matches Some(v) ==> v.wf() && same_value(v@, decimal_literal(s@)->0),
    {
        let cs = crate::text::str_chars(s);
        Rational::from_decimal_chars(&cs)
    }
}

} // verus!
