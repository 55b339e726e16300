//! Decimal numbers in the syntax that `str::parse::<f64>` accepts, read exactly:
//!
//! ```text
//! Float  ::= Sign? ( 'inf' | 'infinity' | 'nan' | Number )
//! Number ::= ( Digit+ | Digit+ '.' Digit* | Digit* '.' Digit+ ) Exp?
//! Exp    ::= 'e' Sign? Digit+
//! Sign   ::= [+-]
//! Digit  ::= [0-9]
//! ```
//!
//! Letters match in either case. A finite number is kept as its digits, the
//! count of them after the point, and its exponent, so that its value is a
//! rational number with no rounding.

use vstd::prelude::*;

verus! {

pub open spec fn is_digit(c: char) -> bool {
    '0' <= c <= '9'
}

pub open spec fn digit_value(c: char) -> nat {
    (c as int - '0' as int) as nat
}

pub open spec fn all_digits(s: Seq<char>) -> bool {
    forall|i: int| 0 <= i < s.len() ==> is_digit(#[trigger] s[i])
}

/// The value of a string of decimal digits.
pub open spec fn digits_value(s: Seq<char>) -> nat
    decreases s.len(),
{
    if s.len() == 0 {
        0
    } else {
        digits_value(s.drop_last()) * 10 + digit_value(s.last())
    }
}

pub open spec fn pow10(n: nat) -> nat
    decreases n,
{
    if n == 0 {
        1
    } else {
        10 * pow10((n - 1) as nat)
    }
}

/// The index of the first character of `s` that satisfies `p`, or `s.len()`.
pub open spec fn first_index(s: Seq<char>, p: spec_fn(char) -> bool) -> int
    decreases s.len(),
{
    if s.len() == 0 {
        0
    } else if p(s[0]) {
        0
    } else {
        1 + first_index(s.drop_first(), p)
    }
}

pub open spec fn is_exp_mark() -> spec_fn(char) -> bool {
    |c: char| c == 'e' || c == 'E'
}

pub open spec fn is_point() -> spec_fn(char) -> bool {
    |c: char| c == '.'
}

/// `c` is the lower-case letter `l` written in either case.
pub open spec fn same_letter(c: char, l: char) -> bool {
    c == l || ('A' <= c <= 'Z' && c as u32 + 32 == l as u32)
}

/// `s` spells the lower-case word `w`, ignoring case.
pub open spec fn spells(s: Seq<char>, w: Seq<char>) -> bool {
    s.len() == w.len() && forall|i: int| 0 <= i < s.len() ==> same_letter(s[i], w[i])
}

pub open spec fn has_sign(s: Seq<char>) -> bool {
    s.len() > 0 && (s[0] == '+' || s[0] == '-')
}

/// A number read from text.
pub ghost enum FloatText {
    /// `inf`, `infinity` or `nan`, with or without a sign.
    Special,
    /// `(-1)^neg * digits_value(whole + frac) * 10^(exp - frac.len())`.
    Finite { neg: bool, whole: Seq<char>, frac: Seq<char>, exp: int },
}

/// The exponent after `e`: a sign and at least one digit.
pub open spec fn exponent_text(x: Seq<char>) -> Option<int> {
    let d = if has_sign(x) {
        x.drop_first()
    } else {
        x
    };
    if d.len() > 0 && all_digits(d) {
        if has_sign(x) && x[0] == '-' {
            Some(-(digits_value(d) as int))
        } else {
            Some(digits_value(d) as int)
        }
    } else {
        None
    }
}

/// What `s` denotes in the syntax of `f64` literals, if it is one.
pub open spec fn float_text(s: Seq<char>) -> Option<FloatText> {
    let neg = has_sign(s) && s[0] == '-';
    let r = if has_sign(s) {
        s.drop_first()
    } else {
        s
    };
    if spells(r, seq!['i', 'n', 'f']) || spells(
        r,
        seq!['i', 'n', 'f', 'i', 'n', 'i', 't', 'y'],
    ) || spells(r, seq!['n', 'a', 'n']) {
        Some(FloatText::Special)
    } else {
        finite_text(neg, r)
    }
}

/// The finite number that `r` (the text after any sign) spells, if any.
pub open spec fn finite_text(neg: bool, r: Seq<char>) -> Option<FloatText> {
    let e = first_index(r, is_exp_mark());
    let mant = r.take(e);
    let d = first_index(mant, is_point());
    let whole = mant.take(d);
    let frac = if d < mant.len() {
        mant.skip(d + 1)
    } else {
        Seq::<char>::empty()
    };
    let exp = if e < r.len() {
        exponent_text(r.skip(e + 1))
    } else {
        Some(0int)
    };
    if all_digits(whole) && all_digits(frac) && whole.len() + frac.len() > 0 && exp is Some {
        Some(FloatText::Finite { neg, whole, frac, exp: exp.unwrap() })
    } else {
        None
    }
}

pub proof fn lemma_first_index(s: Seq<char>, p: spec_fn(char) -> bool, i: int)
    requires
        0 <= i <= s.len(),
        forall|j: int| 0 <= j < i ==> !p(#[trigger] s[j]),
        i == s.len() || p(s[i]),
    ensures
        first_index(s, p) == i,
    decreases i,
{
    if i > 0 {
        let t = s.drop_first();
        assert forall|j: int| 0 <= j < i - 1 implies !p(#[trigger] t[j]) by {
            assert(t[j] == s[j + 1]);
        }
        lemma_first_index(t, p, i - 1);
    }
}

pub proof fn lemma_digits_value_push(s: Seq<char>, c: char)
    ensures
        digits_value(s.push(c)) == digits_value(s) * 10 + digit_value(c),
{
    assert(s.push(c).drop_last() =~= s);
}

/// Leading zeros do not change the value.
pub proof fn lemma_leading_zeros(s: Seq<char>, z: int)
    requires
        0 <= z <= s.len(),
        forall|j: int| 0 <= j < z ==> #[trigger] s[j] == '0',
    ensures
        digits_value(s) == digits_value(s.skip(z)),
    decreases s.len(),
{
    if z < s.len() {
        lemma_leading_zeros(s.drop_last(), z);
        assert(s.drop_last().skip(z) =~= s.skip(z).drop_last());
    } else {
        lemma_all_zeros(s);
        assert(s.skip(z) =~= Seq::<char>::empty());
    }
}

pub proof fn lemma_all_zeros(s: Seq<char>)
    requires
        forall|j: int| 0 <= j < s.len() ==> #[trigger] s[j] == '0',
    ensures
        digits_value(s) == 0,
    decreases s.len(),
{
    if s.len() > 0 {
        lemma_all_zeros(s.drop_last());
    }
}

/// A digit string with a non-zero first digit is at least `10^(len-1)`; any digit
/// string is below `10^len`.
pub proof fn lemma_digits_bounds(s: Seq<char>)
    requires
        all_digits(s),
    ensures
        digits_value(s) < pow10(s.len()),
        s.len() > 0 && s[0] != '0' ==> digits_value(s) >= pow10((s.len() - 1) as nat),
    decreases s.len(),
{
    if s.len() > 0 {
        let t = s.drop_last();
        lemma_digits_bounds(t);
        if t.len() > 0 {
            assert(t[0] == s[0]);
        } else {
            assert(s[0] == s.last());
        }
    }
}

/// Digits read in a loop: the exec side of `digits_value`, saturating at `cap`.
pub proof fn lemma_digits_monotone(s: Seq<char>, n: int)
    requires
        0 <= n <= s.len(),
    ensures
        digits_value(s.take(n)) <= digits_value(s),
    decreases s.len() - n,
{
    if n < s.len() {
        lemma_digits_monotone(s, n + 1);
        assert(s.take(n + 1).drop_last() =~= s.take(n));
    } else {
        assert(s.take(n) =~= s);
    }
}

/// The result of reading a number: bounds into the character vector, and an
/// exponent magnitude that saturates at `EXP_CAP`.
pub struct FloatParts {
    pub special: bool,
    pub neg: bool,
    pub int_lo: usize,
    pub int_hi: usize,
    pub frac_lo: usize,
    pub frac_hi: usize,
    pub exp_neg: bool,
    pub exp_mag: u128,
}

pub const EXP_CAP: u128 = 1_000_000_000_000_000_000_000_000_000_000;

impl FloatParts {
    /// These parts describe the number `f` read from `v`.
    pub open spec fn describes(self, v: Seq<char>, f: FloatText) -> bool {
        match f {
            FloatText::Special => self.special,
            FloatText::Finite { neg, whole, frac, exp } => {
                &&& !self.special
                &&& self.neg == neg
                &&& self.int_lo <= self.int_hi <= v.len()
                &&& self.frac_lo <= self.frac_hi <= v.len()
                &&& v.subrange(self.int_lo as int, self.int_hi as int) == whole
                &&& v.subrange(self.frac_lo as int, self.frac_hi as int) == frac
                &&& self.exp_mag <= EXP_CAP
                &&& if self.exp_mag < EXP_CAP {
                    exp == (if self.exp_neg {
                        -(self.exp_mag as int)
                    } else {
                        self.exp_mag as int
                    })
                } else {
                    &&& self.exp_neg ==> exp <= -(EXP_CAP as int)
                    &&& !self.exp_neg ==> exp >= EXP_CAP as int
                }
            },
        }
    }
}

fn is_sign(c: char) -> (r: bool)
    ensures
        r == (c == '+' || c == '-'),
{
    c == '+' || c == '-'
}

fn letter_is(c: char, l: char) -> (r: bool)
    requires
        'a' <= l <= 'z',
    ensures
        r == same_letter(c, l),
{
    c == l || ('A' <= c && c <= 'Z' && c as u32 + 32 == l as u32)
}

/// Whether `v[lo..hi]` spells the lower-case word `w`, ignoring case.
fn spells_word(v: &Vec<char>, lo: usize, hi: usize, w: &Vec<char>) -> (r: bool)
    requires
        lo <= hi <= v.len(),
        forall|i: int| 0 <= i < w.len() ==> 'a' <= #[trigger] w@[i] <= 'z',
    ensures
        r == spells(v@.subrange(lo as int, hi as int), w@),
{
    if hi - lo != w.len() {
        return false;
    }
    let mut i: usize = 0;
    while i < w.len()
        invariant
            lo <= hi <= v.len(),
            hi - lo == w.len(),
            0 <= i <= w.len(),
            forall|i: int| 0 <= i < w.len() ==> 'a' <= #[trigger] w@[i] <= 'z',
            forall|j: int| 0 <= j < i ==> same_letter(v@[lo + j], w@[j]),
        decreases w.len() - i,
    {
        if !letter_is(v[lo + i], w[i]) {
            assert(!same_letter(v@.subrange(lo as int, hi as int)[i as int], w@[i as int]));
            return false;
        }
        i = i + 1;
    }
    assert forall|j: int| 0 <= j < w.len() implies same_letter(
        v@.subrange(lo as int, hi as int)[j],
        w@[j],
    ) by {
        assert(v@.subrange(lo as int, hi as int)[j] == v@[lo + j]);
    }
    true
}

fn is_digit_char(c: char) -> (r: bool)
    ensures
        r == is_digit(c),
{
    '0' <= c && c <= '9'
}

/// Whether every character of `v[lo..hi]` is a digit.
fn digits_only(v: &Vec<char>, lo: usize, hi: usize) -> (r: bool)
    requires
        lo <= hi <= v.len(),
    ensures
        r == all_digits(v@.subrange(lo as int, hi as int)),
{
    let mut i = lo;
    while i < hi
        invariant
            lo <= i <= hi <= v.len(),
            forall|j: int| lo <= j < i ==> is_digit(#[trigger] v@[j]),
        decreases hi - i,
    {
        if !is_digit_char(v[i]) {
            assert(!is_digit(v@.subrange(lo as int, hi as int)[i - lo]));
            return false;
        }
        i = i + 1;
    }
    assert forall|j: int| 0 <= j < hi - lo implies is_digit(
        #[trigger] v@.subrange(lo as int, hi as int)[j],
    ) by {
        assert(v@.subrange(lo as int, hi as int)[j] == v@[lo + j]);
    }
    true
}

/// The first index in `[lo, hi)` holding `e`/`E` (`exp == true`) or `.`, or `hi`.
fn find_mark(v: &Vec<char>, lo: usize, hi: usize, exp: bool) -> (r: usize)
    requires
        lo <= hi <= v.len(),
    ensures
        lo <= r <= hi,
        first_index(
            v@.subrange(lo as int, hi as int),
            if exp {
                is_exp_mark()
            } else {
                is_point()
            },
        ) == r - lo,
{
    let ghost p = if exp {
        is_exp_mark()
    } else {
        is_point()
    };
    let mut i = lo;
    while i < hi && !is_mark(v[i], exp)
        invariant
            lo <= i <= hi <= v.len(),
            p == (if exp {
                is_exp_mark()
            } else {
                is_point()
            }),
            forall|j: int| lo <= j < i ==> !p(#[trigger] v@[j]),
        decreases hi - i,
    {
        i = i + 1;
    }
    proof {
        let s = v@.subrange(lo as int, hi as int);
        assert forall|j: int| 0 <= j < i - lo implies !p(#[trigger] s[j]) by {
            assert(s[j] == v@[lo + j]);
        }
        if i < hi {
            assert(s[i - lo] == v@[i as int]);
        }
        lemma_first_index(s, p, i - lo);
    }
    i
}

fn is_mark(c: char, exp: bool) -> (r: bool)
    ensures
        r == (if exp {
            is_exp_mark()
        } else {
            is_point()
        })(c),
{
    if exp {
        c == 'e' || c == 'E'
    } else {
        c == '.'
    }
}

/// The value of the digits `v[lo..hi]`, saturating at `EXP_CAP`.
fn read_digits_capped(v: &Vec<char>, lo: usize, hi: usize) -> (r: u128)
    requires
        lo <= hi <= v.len(),
        all_digits(v@.subrange(lo as int, hi as int)),
    ensures
        r <= EXP_CAP,
        r < EXP_CAP ==> r == digits_value(v@.subrange(lo as int, hi as int)),
        r == EXP_CAP ==> digits_value(v@.subrange(lo as int, hi as int)) >= EXP_CAP,
{
    let ghost s = v@.subrange(lo as int, hi as int);
    let mut acc: u128 = 0;
    let mut i = lo;
    while i < hi
        invariant
            lo <= i <= hi <= v.len(),
            s == v@.subrange(lo as int, hi as int),
            all_digits(s),
            acc <= EXP_CAP,
            acc < EXP_CAP ==> acc == digits_value(s.take(i - lo)),
            acc == EXP_CAP ==> digits_value(s.take(i - lo)) >= EXP_CAP,
        decreases hi - i,
    {
        let ghost k = i - lo;
        assert(s.take(k + 1) =~= s.take(k).push(s[k]));
        proof {
            lemma_digits_value_push(s.take(k), s[k]);
        }
        assert(s[k] == v@[i as int]);
        assert(is_digit(s[k]));
        let d = (v[i] as u32 - '0' as u32) as u128;
        if acc < EXP_CAP {
            if acc >= EXP_CAP / 10 {
                acc = EXP_CAP;
            } else {
                acc = acc * 10 + d;
                if acc > EXP_CAP {
                    acc = EXP_CAP;
                }
            }
        }
        i = i + 1;
    }
    proof {
        assert(s.take(hi - lo) =~= s);
    }
    acc
}

/// Reads `v[lo..hi]` as a number in the syntax of `f64` literals.
pub fn read_float(v: &Vec<char>, lo: usize, hi: usize) -> (r: Option<FloatParts>)
    requires
        lo <= hi <= v.len(),
    ensures
        match float_text(v@.subrange(lo as int, hi as int)) {
            None => r is None,
            Some(f) => r matches Some(parts) && parts.describes(v@, f),
        },
{
    let ghost s = v@.subrange(lo as int, hi as int);
    let signed = lo < hi && is_sign(v[lo]);
    let neg = signed && v[lo] == '-';
    let a = if signed {
        lo + 1
    } else {
        lo
    };
    let ghost r = v@.subrange(a as int, hi as int);
    proof {
        if signed {
            assert(s.drop_first() =~= r);
        } else {
            assert(s =~= r);
        }
        assert(has_sign(s) == signed);
    }
    let inf = vec!['i', 'n', 'f'];
    let infinity = vec!['i', 'n', 'f', 'i', 'n', 'i', 't', 'y'];
    let nan = vec!['n', 'a', 'n'];
    if spells_word(v, a, hi, &inf) || spells_word(v, a, hi, &infinity) || spells_word(
        v,
        a,
        hi,
        &nan,
    ) {
        assert(inf@ =~= seq!['i', 'n', 'f']);
        assert(infinity@ =~= seq!['i', 'n', 'f', 'i', 'n', 'i', 't', 'y']);
        assert(nan@ =~= seq!['n', 'a', 'n']);
        return Some(
            FloatParts {
                special: true,
                neg,
                int_lo: a,
                int_hi: a,
                frac_lo: a,
                frac_hi: a,
                exp_neg: false,
                exp_mag: 0,
            },
        );
    }
    assert(inf@ =~= seq!['i', 'n', 'f']);
    assert(infinity@ =~= seq!['i', 'n', 'f', 'i', 'n', 'i', 't', 'y']);
    assert(nan@ =~= seq!['n', 'a', 'n']);
    read_finite(v, a, hi, neg)
}

/// Reads `v[a..hi]` as an unsigned finite number; `neg` is the sign before it.
fn read_finite(v: &Vec<char>, a: usize, hi: usize, neg: bool) -> (r: Option<FloatParts>)
    requires
        a <= hi <= v.len(),
    ensures
        match finite_text(neg, v@.subrange(a as int, hi as int)) {
            None => r is None,
            Some(f) => r matches Some(parts) && parts.describes(v@, f),
        },
{
    let ghost r = v@.subrange(a as int, hi as int);
    let e = find_mark(v, a, hi, true);
    let d = find_mark(v, a, e, false);
    assert(r.take(e - a) =~= v@.subrange(a as int, e as int));
    let int_lo = a;
    let int_hi = d;
    let (frac_lo, frac_hi) = if d < e {
        (d + 1, e)
    } else {
        (e, e)
    };
    proof {
        let mant = r.take(e - a);
        assert(mant.take(d - a) =~= v@.subrange(int_lo as int, int_hi as int));
        if d < e {
            assert(mant.skip(d - a + 1) =~= v@.subrange(frac_lo as int, frac_hi as int));
        } else {
            assert(v@.subrange(frac_lo as int, frac_hi as int) =~= Seq::<char>::empty());
        }
    }
    if !(digits_only(v, int_lo, int_hi) && digits_only(v, frac_lo, frac_hi) && (int_hi - int_lo)
        + (frac_hi - frac_lo) > 0) {
        return None;
    }
    let mut exp_neg = false;
    let mut exp_mag: u128 = 0;
    if e < hi {
        assert(r.skip(e - a + 1) =~= v@.subrange(e + 1, hi as int));
        match read_exponent(v, e + 1, hi) {
            None => {
                return None;
            },
            Some((n, m)) => {
                exp_neg = n;
                exp_mag = m;
            },
        }
    }
    Some(FloatParts { special: false, neg, int_lo, int_hi, frac_lo, frac_hi, exp_neg, exp_mag })
}

/// Reads the exponent `v[x_lo..hi]` (after the `e`): its sign and saturated magnitude.
fn read_exponent(v: &Vec<char>, x_lo: usize, hi: usize) -> (r: Option<(bool, u128)>)
    requires
        x_lo <= hi <= v.len(),
    ensures
        match exponent_text(v@.subrange(x_lo as int, hi as int)) {
            None => r is None,
            Some(exp) => r matches Some((exp_neg, exp_mag)) && exp_mag <= EXP_CAP && if exp_mag
                < EXP_CAP {
                exp == (if exp_neg {
                    -(exp_mag as int)
                } else {
                    exp_mag as int
                })
            } else {
                &&& exp_neg ==> exp <= -(EXP_CAP as int)
                &&& !exp_neg ==> exp >= EXP_CAP as int
            },
        },
{
    let ghost x = v@.subrange(x_lo as int, hi as int);
    let xs = x_lo < hi && is_sign(v[x_lo]);
    let d_lo = if xs {
        x_lo + 1
    } else {
        x_lo
    };
    proof {
        assert(has_sign(x) == xs);
        if xs {
            assert(x.drop_first() =~= v@.subrange(d_lo as int, hi as int));
        } else {
            assert(x =~= v@.subrange(d_lo as int, hi as int));
        }
    }
    if !(d_lo < hi && digits_only(v, d_lo, hi)) {
        return None;
    }
    let exp_neg = xs && v[x_lo] == '-';
    let exp_mag = read_digits_capped(v, d_lo, hi);
    Some((exp_neg, exp_mag))
}


/// `m * 10^t` rounded to the nearest integer, halves rounded up.
pub open spec fn round_scaled(m: nat, t: int) -> nat {
    if t >= 0 {
        m * pow10(t as nat)
    } else {
        (2 * m + pow10((-t) as nat)) / (2 * pow10((-t) as nat))
    }
}

/// The first `n` digits of `s`, with zeros for the digits past its end.
pub open spec fn padded_value(s: Seq<char>, n: nat) -> nat
    decreases n,
{
    if n == 0 {
        0
    } else {
        padded_value(s, (n - 1) as nat) * 10 + if n - 1 < s.len() {
            digit_value(s[n - 1])
        } else {
            0
        }
    }
}

pub proof fn lemma_pow10_positive(n: nat)
    ensures
        pow10(n) > 0,
    decreases n,
{
    if n > 0 {
        lemma_pow10_positive((n - 1) as nat);
    }
}

pub proof fn lemma_pow10_add(a: nat, b: nat)
    ensures
        pow10(a + b) == pow10(a) * pow10(b),
    decreases a,
{
    if a > 0 {
        lemma_pow10_add((a - 1) as nat, b);
        let x = pow10((a - 1) as nat);
        let y = pow10(b);
        assert(pow10(a + b) == 10 * pow10((a - 1 + b) as nat));
        assert(pow10(a) == 10 * x);
        assert(10 * (x * y) == (10 * x) * y) by (nonlinear_arith);
    } else {
        assert(pow10(0) == 1);
        assert(a + b == b);
    }
}

pub proof fn lemma_pow10_monotone(a: nat, b: nat)
    requires
        a <= b,
    ensures
        pow10(a) <= pow10(b),
    decreases b,
{
    if a < b {
        lemma_pow10_monotone(a, (b - 1) as nat);
        lemma_pow10_positive((b - 1) as nat);
    }
}

/// Splitting a digit string at `k`: the digits before it, shifted, plus the rest.
pub proof fn lemma_digits_split(s: Seq<char>, k: int)
    requires
        0 <= k <= s.len(),
    ensures
        digits_value(s) == digits_value(s.take(k)) * pow10((s.len() - k) as nat) + digits_value(
            s.skip(k),
        ),
    decreases s.len(),
{
    if k == s.len() {
        assert(s.take(k) =~= s);
        assert(s.skip(k) =~= Seq::<char>::empty());
        assert(digits_value(s.skip(k)) == 0);
        assert(pow10(0) == 1);
        assert((s.len() - k) as nat == 0);
        assert(digits_value(s.take(k)) * 1 == digits_value(s));
    } else {
        let t = s.drop_last();
        lemma_digits_split(t, k);
        assert(s.take(k) =~= t.take(k));
        assert(s.skip(k) =~= t.skip(k).push(s.last()));
        lemma_digits_value_push(t.skip(k), s.last());
        let a = digits_value(t.take(k));
        let q = pow10((t.len() - k) as nat);
        let b = digits_value(t.skip(k));
        let d = digit_value(s.last());
        assert(pow10((s.len() - k) as nat) == 10 * q);
        assert(digits_value(s) == digits_value(t) * 10 + d);
        assert(digits_value(s.skip(k)) == b * 10 + d);
        assert((a * q + b) * 10 + d == a * (10 * q) + (b * 10 + d)) by (nonlinear_arith);
    }
}

pub proof fn lemma_padded_take(s: Seq<char>, n: nat)
    requires
        n <= s.len(),
    ensures
        padded_value(s, n) == digits_value(s.take(n as int)),
    decreases n,
{
    if n > 0 {
        lemma_padded_take(s, (n - 1) as nat);
        assert(s.take(n as int).drop_last() =~= s.take(n - 1));
    } else {
        assert(s.take(0) =~= Seq::<char>::empty());
    }
}

pub proof fn lemma_padded_beyond(s: Seq<char>, n: nat)
    requires
        n >= s.len(),
    ensures
        padded_value(s, n) == digits_value(s) * pow10((n - s.len()) as nat),
    decreases n,
{
    if n == s.len() {
        lemma_padded_take(s, n);
        assert(s.take(n as int) =~= s);
        assert(pow10(0) == 1);
        assert((n - s.len()) as nat == 0);
    } else {
        lemma_padded_beyond(s, (n - 1) as nat);
        let a = digits_value(s);
        let q = pow10((n - 1 - s.len()) as nat);
        assert(padded_value(s, n) == padded_value(s, (n - 1) as nat) * 10);
        assert(pow10((n - s.len()) as nat) == 10 * q);
        assert(a * q * 10 == a * (10 * q)) by (nonlinear_arith);
    }
}

pub proof fn lemma_padded_bound(s: Seq<char>, n: nat)
    requires
        all_digits(s),
    ensures
        padded_value(s, n) < pow10(n),
    decreases n,
{
    if n > 0 {
        lemma_padded_bound(s, (n - 1) as nat);
        if n - 1 < s.len() {
            assert(is_digit(s[n - 1]));
        }
    }
}

/// `(2aq + x + q) / 2q == a + (x/q + 1)/2`: rounding a sum whose first part is whole.
pub proof fn lemma_round_split(a: nat, x: nat, q: nat)
    requires
        q > 0,
    ensures
        (2 * a * q + x + q) / (2 * q) == a + (x / q + 1) / 2,
{
    let g = x / q;
    let r = x % q;
    vstd::arithmetic::div_mod::lemma_fundamental_div_mod(x as int, q as int);
    let h = (g + 1) / 2;
    let e = (g + 1) % 2;
    assert(g + 1 == 2 * h + e);
    assert(0 <= r < q);
    assert(x == q * g + r);
    assert(2 * a * q + x + q == (a + h) * (2 * q) + (e * q + r)) by (nonlinear_arith)
        requires
            x == q * g + r,
            g + 1 == 2 * h + e,
    ;
    assert(0 <= e * q + r < 2 * q) by (nonlinear_arith)
        requires
            0 <= e <= 1,
            0 <= r < q,
    ;
    vstd::arithmetic::div_mod::lemma_fundamental_div_mod_converse(
        (2 * a * q + x + q) as int,
        (2 * q) as int,
        (a + h) as int,
        (e * q + r) as int,
    );
}

/// One step of multiplying a digit string by `k` from its right end: the carry
/// out of `d ++ rest` from the carry out of `rest`.
pub proof fn lemma_carry_step(k: nat, d: nat, rest: nat, q: nat)
    requires
        q > 0,
    ensures
        (k * d + (k * rest) / q) / 10 == (k * (d * q + rest)) / (10 * q),
{
    let y = k * rest;
    let c0 = y / q;
    let r = y % q;
    vstd::arithmetic::div_mod::lemma_fundamental_div_mod(y as int, q as int);
    let u = k * d + c0;
    let hq = u / 10;
    let s = u % 10;
    vstd::arithmetic::div_mod::lemma_fundamental_div_mod(u as int, 10);
    assert(k * (d * q + rest) == hq * (10 * q) + (s * q + r)) by (nonlinear_arith)
        requires
            y == k * rest,
            y == q * c0 + r,
            u == k * d + c0,
            u == 10 * hq + s,
    ;
    assert(0 <= s * q + r < 10 * q) by (nonlinear_arith)
        requires
            0 <= s < 10,
            0 <= r < q,
    ;
    vstd::arithmetic::div_mod::lemma_fundamental_div_mod_converse(
        (k * (d * q + rest)) as int,
        (10 * q) as int,
        hq as int,
        (s * q + r) as int,
    );
}

/// Values with their first digit at place `10^29` or higher round to at least `10^29`.
pub proof fn lemma_large(d: Seq<char>, c: nat, t: int)
    requires
        all_digits(d),
        d.len() > 0,
        d[0] != '0',
        c >= 1,
        d.len() + t >= 30,
    ensures
        round_scaled(c * digits_value(d), t) >= pow10(29),
{
    let m = digits_value(d);
    let l = d.len();
    lemma_digits_bounds(d);
    let lo = pow10((l - 1) as nat);
    assert(m >= lo);
    assert(c * m >= m) by (nonlinear_arith)
        requires
            c >= 1,
    ;
    if t >= 0 {
        lemma_pow10_add((l - 1) as nat, t as nat);
        lemma_pow10_monotone(29, (l - 1 + t) as nat);
        let q = pow10(t as nat);
        assert(c * m * q >= lo * q) by (nonlinear_arith)
            requires
                c * m >= lo,
        ;
    } else {
        let f = (-t) as nat;
        let q = pow10(f);
        lemma_pow10_positive(f);
        let top = (l - 1 - f) as nat;
        lemma_pow10_add(top, f);
        lemma_pow10_monotone(29, top);
        let big = pow10(top);
        assert(lo == big * q);
        assert(2 * (c * m) + q >= big * (2 * q)) by (nonlinear_arith)
            requires
                c * m >= big * q,
                q > 0,
        ;
        vstd::arithmetic::div_mod::lemma_div_is_ordered(
            (big * (2 * q)) as int,
            (2 * (c * m) + q) as int,
            (2 * q) as int,
        );
        vstd::arithmetic::div_mod::lemma_div_by_multiple(big as int, (2 * q) as int);
    }
}

/// Values below `10^-4` of a unit round to zero.
pub proof fn lemma_tiny(d: Seq<char>, c: nat, t: int)
    requires
        all_digits(d),
        c <= 864,
        d.len() + t <= -4,
    ensures
        round_scaled(c * digits_value(d), t) == 0,
{
    let m = digits_value(d);
    let l = d.len();
    lemma_digits_bounds(d);
    let f = (-t) as nat;
    let q = pow10(f);
    lemma_pow10_add(4, l);
    lemma_pow10_monotone(l + 4, f);
    assert(pow10(4) == 10000) by {
        reveal_with_fuel(pow10, 5);
    }
    let pl = pow10(l);
    assert(2 * (c * m) < pl * 10000) by (nonlinear_arith)
        requires
            c <= 864,
            m < pl,
    ;
    assert(2 * (c * m) + q < 2 * q);
    vstd::arithmetic::div_mod::lemma_basic_div((2 * (c * m) + q) as int, (2 * q) as int);
}


/// `floor(k * digits_value(ds[lo..hi]) / 10^(hi - lo))`: the carry out of the top
/// when the digits are multiplied by `k` from the right.
fn carry_out(ds: &Vec<char>, lo: usize, hi: usize, k: u128) -> (carry: u128)
    requires
        lo <= hi <= ds.len(),
        all_digits(ds@.subrange(lo as int, hi as int)),
        1 <= k <= 2000,
    ensures
        carry < k,
        carry == (k * digits_value(ds@.subrange(lo as int, hi as int))) as nat / pow10(
            (hi - lo) as nat,
        ),
{
    let ghost s = ds@.subrange(lo as int, hi as int);
    let mut carry: u128 = 0;
    let mut j: usize = hi;
    proof {
        assert(ds@.subrange(hi as int, hi as int) =~= Seq::<char>::empty());
        assert(digits_value(ds@.subrange(hi as int, hi as int)) == 0);
        assert(pow10(0) == 1);
        assert(k * 0 == 0);
    }
    while j > lo
        invariant
            lo <= j <= hi <= ds.len(),
            s == ds@.subrange(lo as int, hi as int),
            all_digits(s),
            1 <= k <= 2000,
            carry < k,
            carry == (k * digits_value(ds@.subrange(j as int, hi as int))) as nat / pow10(
                (hi - j) as nat,
            ),
        decreases j,
    {
        j = j - 1;
        assert(ds@[j as int] == s[j - lo]);
        assert(is_digit(ds@[j as int]));
        let d: u128 = (ds[j] as u32 - '0' as u32) as u128;
        proof {
            let c = ds@[j as int];
            assert(digit_value(c) == d);
            let rest = ds@.subrange(j + 1, hi as int);
            let all = ds@.subrange(j as int, hi as int);
            lemma_digits_split(all, 1);
            assert(all.take(1) =~= seq![c]);
            assert(all.skip(1) =~= rest);
            assert(seq![c].drop_last() =~= Seq::<char>::empty());
            assert(digits_value(Seq::<char>::empty()) == 0);
            assert(digits_value(seq![c]) == digits_value(Seq::<char>::empty()) * 10 + digit_value(c));
            lemma_pow10_positive((hi - j - 1) as nat);
            lemma_carry_step(k as nat, d as nat, digits_value(rest), pow10((hi - j - 1) as nat));
            assert(pow10((hi - j) as nat) == 10 * pow10((hi - j - 1) as nat));
            assert(k * d + carry < 10 * k) by (nonlinear_arith)
                requires
                    d <= 9,
                    carry < k,
            ;
        }
        carry = (k * d + carry) / 10;
    }
    carry
}

/// `10^n` for small `n`.
fn pow10_small(n: u32) -> (r: u128)
    requires
        n <= 30,
    ensures
        r == pow10(n as nat),
        0 < r <= 1_000_000_000_000_000_000_000_000_000_000u128,
{
    proof {
        lemma_pow10_positive(n as nat);
    }
    proof {
        assert(pow10(30) == 1_000_000_000_000_000_000_000_000_000_000nat) by {
            reveal_with_fuel(pow10, 31);
        }
        lemma_pow10_monotone(n as nat, 30);
    }
    let mut r: u128 = 1;
    let mut i: u32 = 0;
    while i < n
        invariant
            i <= n <= 30,
            r == pow10(i as nat),
            pow10(n as nat) <= 1_000_000_000_000_000_000_000_000_000_000nat,
        decreases n - i,
    {
        proof {
            lemma_pow10_monotone((i + 1) as nat, n as nat);
        }
        r = r * 10;
        i = i + 1;
    }
    r
}

pub open spec fn exponent_matches(exp_neg: bool, exp_mag: u128, exp: int) -> bool {
    &&& exp_mag <= EXP_CAP
    &&& exp_mag < EXP_CAP ==> exp == (if exp_neg {
        -(exp_mag as int)
    } else {
        exp_mag as int
    })
    &&& exp_mag == EXP_CAP ==> (exp_neg ==> exp <= -(EXP_CAP as int)) && (!exp_neg ==> exp
        >= EXP_CAP as int)
}

/// The value of the first `count` digits of `ds[z..]`, with zeros past its end.
fn whole_value(ds: &Vec<char>, z: usize, count: usize) -> (acc: u128)
    requires
        z <= ds.len(),
        all_digits(ds@.skip(z as int)),
        count <= 29,
    ensures
        acc == padded_value(ds@.skip(z as int), count as nat),
        acc < 100_000_000_000_000_000_000_000_000_000u128,
{
    let ghost dd = ds@.skip(z as int);
    let l = ds.len() - z;
    proof {
        assert(pow10(29) == 100_000_000_000_000_000_000_000_000_000nat) by {
            reveal_with_fuel(pow10, 30);
        }
    }
    let mut acc: u128 = 0;
    let mut i: usize = 0;
    while i < count
        invariant
            count <= 29,
            i <= count,
            l == dd.len(),
            z + l == ds.len(),
            dd == ds@.skip(z as int),
            all_digits(dd),
            acc == padded_value(dd, i as nat),
            pow10(29) == 100_000_000_000_000_000_000_000_000_000nat,
        decreases count - i,
    {
        proof {
            lemma_padded_bound(dd, i as nat);
            lemma_pow10_monotone(i as nat, 28);
            if i < l {
                assert(dd[i as int] == ds@[z + i]);
                assert(is_digit(dd[i as int]));
            }
        }
        assert(pow10(28) * 10 == pow10(29));
        let digit: u128 = if i < l {
            (ds[z + i] as u32 - '0' as u32) as u128
        } else {
            0
        };
        acc = acc * 10 + digit;
        i = i + 1;
    }
    proof {
        lemma_padded_bound(dd, count as nat);
        lemma_pow10_monotone(count as nat, 29);
    }
    acc
}

/// How the rounded value is put together from the whole digits and the carry
/// out of the fraction.
proof fn lemma_round_parts(dd: Seq<char>, c: nat, t: int, whole: nat, start: nat, acc: nat, carry: nat, g: nat)
    requires
        all_digits(dd),
        1 <= c,
        -4 < dd.len() + t < 30,
        whole == (if dd.len() + t > 0 { (dd.len() + t) as nat } else { 0nat }),
        start == (if whole < dd.len() { whole } else { dd.len() }),
        acc == padded_value(dd, whole),
        carry == (2 * c * digits_value(dd.subrange(start as int, dd.len() as int))) / pow10(
            (dd.len() - start) as nat,
        ),
        dd.len() + t >= 0 ==> g == carry,
        dd.len() + t < 0 ==> g == carry / pow10((-(dd.len() + t)) as nat),
    ensures
        round_scaled(c * digits_value(dd), t) == c * acc + (g + 1) / 2,
{
    let l = dd.len();
    let m = digits_value(dd);
    let fm = digits_value(dd.subrange(start as int, l as int));
    if t >= 0 {
        lemma_padded_beyond(dd, whole);
        assert(dd.subrange(l as int, l as int) =~= Seq::<char>::empty());
        assert(fm == 0);
        assert(pow10(0) == 1);
        assert(2 * c * 0 == 0);
        assert(g == 0);
        let q = pow10(t as nat);
        assert((c * m) * q == c * (m * q)) by (nonlinear_arith);
    } else {
        let f = (-t) as nat;
        let q = pow10(f);
        lemma_pow10_positive(f);
        if l + t >= 0 {
            lemma_padded_take(dd, whole);
            lemma_digits_split(dd, whole as int);
            assert(dd.skip(whole as int) =~= dd.subrange(start as int, l as int));
            let a = padded_value(dd, whole);
            assert(l - whole == f);
            assert(m == a * q + fm);
            assert(2 * (c * m) + q == 2 * (c * a) * q + 2 * c * fm + q) by (nonlinear_arith)
                requires
                    m == a * q + fm,
            ;
            lemma_round_split(c * a, 2 * c * fm, q);
        } else {
            assert(whole == 0);
            assert(acc == 0);
            assert(start == 0);
            assert(dd.subrange(0, l as int) =~= dd);
            let j2 = (-(l + t)) as nat;
            lemma_pow10_positive(l as nat);
            lemma_pow10_positive(j2);
            lemma_pow10_add(l as nat, j2);
            assert(f == l + j2);
            vstd::arithmetic::div_mod::lemma_div_denominator(
                (2 * c * m) as int,
                pow10(l as nat) as int,
                pow10(j2) as int,
            );
            assert(2 * (c * m) + q == 2 * (c * 0) * q + 2 * c * m + q) by (nonlinear_arith);
            lemma_round_split(0, 2 * c * m, q);
        }
    }
}

/// `c * digits_value(ds) * 10^(exp - frac_len + p)`, rounded to the nearest
/// integer; `None` when that is `10^29` or more.
pub(crate) fn round_digits(
    ds: &Vec<char>,
    frac_len: usize,
    exp_neg: bool,
    exp_mag: u128,
    Ghost(exp): Ghost<int>,
    c: u128,
    p: u32,
) -> (r: Option<u128>)
    requires
        all_digits(ds@),
        digits_value(ds@) > 0,
        1 <= c <= 864,
        p <= 11,
        frac_len <= ds.len(),
        exponent_matches(exp_neg, exp_mag, exp),
    ensures
        match r {
            Some(n) => n == round_scaled((c * digits_value(ds@)) as nat, exp - frac_len + p),
            None => round_scaled((c * digits_value(ds@)) as nat, exp - frac_len + p) >= pow10(29),
        },
{
    let n = ds.len();
    let mut z: usize = 0;
    while z < n && ds[z] == '0'
        invariant
            z <= n == ds.len(),
            forall|j: int| 0 <= j < z ==> #[trigger] ds@[j] == '0',
        decreases n - z,
    {
        z = z + 1;
    }
    proof {
        if z == n {
            lemma_all_zeros(ds@);
        }
        lemma_leading_zeros(ds@, z as int);
    }
    let ghost dd = ds@.skip(z as int);
    let ghost t = exp - frac_len + p;
    assert(z < n);
    assert(dd[0] == ds@[z as int]);
    assert(all_digits(dd)) by {
        assert forall|i: int| 0 <= i < dd.len() implies is_digit(#[trigger] dd[i]) by {
            assert(dd[i] == ds@[z + i]);
        }
    }
    assert(digits_value(ds@) == digits_value(dd));
    let l: usize = n - z;
    if exp_mag == EXP_CAP {
        if exp_neg {
            proof {
                lemma_tiny(dd, c as nat, t);
            }
            return Some(0);
        } else {
            proof {
                lemma_large(dd, c as nat, t);
            }
            return None;
        }
    }
    let e: i128 = if exp_neg {
        -(exp_mag as i128)
    } else {
        exp_mag as i128
    };
    let tt: i128 = e - frac_len as i128 + p as i128;
    assert(tt == t);
    let pp: i128 = l as i128 + tt;
    if pp >= 30 {
        proof {
            lemma_large(dd, c as nat, t);
        }
        return None;
    }
    if pp <= -4 {
        proof {
            lemma_tiny(dd, c as nat, t);
        }
        return Some(0);
    }
    let whole: usize = if pp > 0 {
        pp as usize
    } else {
        0
    };
    let acc = whole_value(ds, z, whole);
    let start: usize = if whole < l {
        whole
    } else {
        l
    };
    let k: u128 = 2 * c;
    assert(ds@.subrange(z + start, n as int) =~= dd.subrange(start as int, l as int));
    assert(all_digits(dd.subrange(start as int, l as int))) by {
        assert forall|i: int| 0 <= i < l - start implies is_digit(
            #[trigger] dd.subrange(start as int, l as int)[i],
        ) by {
            assert(dd.subrange(start as int, l as int)[i] == dd[start + i]);
        }
    }
    let carry = carry_out(ds, z + start, n, k);
    let g: u128 = if pp < 0 {
        carry / pow10_small((-pp) as u32)
    } else {
        carry
    };
    proof {
        lemma_round_parts(dd, c as nat, t, whole as nat, start as nat, acc as nat, carry as nat, g as nat);
    }
    assert(c * acc <= 864 * 100_000_000_000_000_000_000_000_000_000u128) by (nonlinear_arith)
        requires
            c <= 864,
            acc < 100_000_000_000_000_000_000_000_000_000u128,
    ;
    Some(c * acc + (g + 1) / 2)
}

} // verus!
