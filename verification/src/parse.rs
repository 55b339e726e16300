//! Parsing of input lines and command-line durations.

use std::time::Duration;
use vstd::prelude::*;

use crate::number::{
    first_index, all_digits, digits_value, float_text, lemma_all_zeros, lemma_digits_bounds,
    lemma_leading_zeros, pow10, read_float, round_digits, round_scaled, FloatText,
};
use crate::text::{
    alpha, alphabetic, is_alphabetic, is_white_space, white_space, append_str, chars_of, skip_end, string_of, trim, trim_bounds, trim_end_by,
};

verus! {

/// Nanoseconds per unit of a duration, as `(c, p)` meaning `c * 10^p`.
pub open spec fn unit_scale(u: Seq<char>) -> Option<(nat, nat)> {
    if u == Seq::<char>::empty() || u == seq!['s'] || u == seq!['s', 'e', 'c'] {
        Some((1nat, 9nat))
    } else if u == seq!['m', 's'] {
        Some((1nat, 6nat))
    } else if u == seq!['u', 's'] {
        Some((1nat, 3nat))
    } else if u == seq!['m'] || u == seq!['m', 'i', 'n'] {
        Some((6nat, 10nat))
    } else if u == seq!['h'] {
        Some((36nat, 11nat))
    } else if u == seq!['d'] {
        Some((864nat, 11nat))
    } else {
        None
    }
}

/// What a duration argument says.
pub ghost enum DurationReading {
    /// The part before the unit is not a number.
    Invalid,
    /// The unit is none of `s`, `sec`, `ms`, `us`, `m`, `min`, `h`, `d` (or empty).
    UnknownUnit(Seq<char>),
    /// Zero, negative, infinite or not a number.
    NotPositive,
    /// This many nanoseconds, rounded to the nearest.
    Nanos(nat),
}

/// The reading of a duration: after trimming, the trailing letters are the unit
/// and the rest (trimmed again) is the number.
pub open spec fn duration_reading(s: Seq<char>) -> DurationReading {
    let t = trim(s);
    let num = trim_end_by(t, alpha());
    let unit = t.skip(num.len() as int);
    match float_text(trim(num)) {
        None => DurationReading::Invalid,
        Some(f) => match unit_scale(unit) {
            None => DurationReading::UnknownUnit(unit),
            Some((c, p)) => match f {
                FloatText::Special => DurationReading::NotPositive,
                FloatText::Finite { neg, whole, frac, exp } => {
                    let m = digits_value(whole + frac);
                    if neg || m == 0 {
                        DurationReading::NotPositive
                    } else {
                        DurationReading::Nanos(round_scaled(c * m, exp - frac.len() + p))
                    }
                },
            },
        },
    }
}

/// `2^64` seconds in nanoseconds: the first length a `Duration` cannot hold.
pub const NANOS_LIMIT: u128 = 18_446_744_073_709_551_616_000_000_000;

/// The duration, if there is one, is shorter than `2^64` seconds.
pub open spec fn duration_in_range(s: Seq<char>) -> bool {
    match duration_reading(s) {
        DurationReading::Nanos(n) => n < NANOS_LIMIT,
        _ => true,
    }
}

/// The `Duration` of `secs` seconds and `nanos` nanoseconds.
pub uninterp spec fn duration_of(secs: u64, nanos: u32) -> Duration;

/// Calls `Duration::new`, which does not carry (nor panic) when `nanos` is below
/// one second.
#[verifier::external_body]
fn new_duration(secs: u64, nanos: u32) -> (d: Duration)
    requires
        nanos < 1_000_000_000,
    ensures
        d == duration_of(secs, nanos),
{
    Duration::new(secs, nanos)
}

enum Verdict {
    Invalid,
    UnknownUnit,
    NotPositive,
    TooLong,
    Nanos(u128),
}

/// A duration argument taken apart: `v[a..b]` is the trimmed text and `v[ua..b]`
/// the unit.
struct Measure {
    a: usize,
    b: usize,
    ua: usize,
    verdict: Verdict,
}

/// Whether `v[lo..hi]` is the word `w`.
fn is_word(v: &Vec<char>, lo: usize, hi: usize, w: &Vec<char>) -> (r: bool)
    requires
        lo <= hi <= v.len(),
    ensures
        r == (v@.subrange(lo as int, hi as int) == w@),
{
    if hi - lo != w.len() {
        assert(v@.subrange(lo as int, hi as int).len() != w@.len());
        return false;
    }
    let mut i: usize = 0;
    while i < w.len()
        invariant
            lo <= hi <= v.len(),
            hi - lo == w.len(),
            i <= w.len(),
            forall|j: int| 0 <= j < i ==> v@[lo + j] == w@[j],
        decreases w.len() - i,
    {
        if v[lo + i] != w[i] {
            assert(v@.subrange(lo as int, hi as int)[i as int] != w@[i as int]);
            return false;
        }
        i = i + 1;
    }
    assert(v@.subrange(lo as int, hi as int) =~= w@);
    true
}

/// The scale of the unit `v[lo..hi]`.
fn unit_of(v: &Vec<char>, lo: usize, hi: usize) -> (r: Option<(u128, u32)>)
    requires
        lo <= hi <= v.len(),
    ensures
        match unit_scale(v@.subrange(lo as int, hi as int)) {
            None => r is None,
            Some((c, p)) => r matches Some((rc, rp)) && rc == c && rp == p,
        },
{
    let w_empty: Vec<char> = vec![];
    let w_s = vec!['s'];
    let w_sec = vec!['s', 'e', 'c'];
    let w_ms = vec!['m', 's'];
    let w_us = vec!['u', 's'];
    let w_m = vec!['m'];
    let w_min = vec!['m', 'i', 'n'];
    let w_h = vec!['h'];
    let w_d = vec!['d'];
    assert(w_empty@ =~= Seq::<char>::empty());
    assert(w_s@ =~= seq!['s']);
    assert(w_sec@ =~= seq!['s', 'e', 'c']);
    assert(w_ms@ =~= seq!['m', 's']);
    assert(w_us@ =~= seq!['u', 's']);
    assert(w_m@ =~= seq!['m']);
    assert(w_min@ =~= seq!['m', 'i', 'n']);
    assert(w_h@ =~= seq!['h']);
    assert(w_d@ =~= seq!['d']);
    if is_word(v, lo, hi, &w_empty) || is_word(v, lo, hi, &w_s) || is_word(v, lo, hi, &w_sec) {
        Some((1, 9))
    } else if is_word(v, lo, hi, &w_ms) {
        Some((1, 6))
    } else if is_word(v, lo, hi, &w_us) {
        Some((1, 3))
    } else if is_word(v, lo, hi, &w_m) || is_word(v, lo, hi, &w_min) {
        Some((6, 10))
    } else if is_word(v, lo, hi, &w_h) {
        Some((36, 11))
    } else if is_word(v, lo, hi, &w_d) {
        Some((864, 11))
    } else {
        None
    }
}

/// `v[a..b] ++ v[c..d]`.
fn join_ranges(v: &Vec<char>, a: usize, b: usize, c: usize, d: usize) -> (r: Vec<char>)
    requires
        a <= b <= v.len(),
        c <= d <= v.len(),
    ensures
        r@ == v@.subrange(a as int, b as int) + v@.subrange(c as int, d as int),
{
    let mut r: Vec<char> = Vec::new();
    let mut i = a;
    while i < b
        invariant
            a <= i <= b <= v.len(),
            r@ == v@.subrange(a as int, i as int),
        decreases b - i,
    {
        r.push(v[i]);
        assert(v@.subrange(a as int, i + 1) =~= v@.subrange(a as int, i as int).push(v@[i as int]));
        i = i + 1;
    }
    let mut j = c;
    while j < d
        invariant
            c <= j <= d <= v.len(),
            r@ == v@.subrange(a as int, b as int) + v@.subrange(c as int, j as int),
        decreases d - j,
    {
        r.push(v[j]);
        assert(v@.subrange(c as int, j + 1) =~= v@.subrange(c as int, j as int).push(v@[j as int]));
        j = j + 1;
    }
    r
}

/// Whether a string of digits has a non-zero value.
fn digits_positive(ds: &Vec<char>) -> (r: bool)
    requires
        all_digits(ds@),
    ensures
        r == (digits_value(ds@) > 0),
{
    let mut z: usize = 0;
    while z < ds.len() && ds[z] == '0'
        invariant
            z <= ds.len(),
            forall|j: int| 0 <= j < z ==> #[trigger] ds@[j] == '0',
        decreases ds.len() - z,
    {
        z = z + 1;
    }
    proof {
        lemma_leading_zeros(ds@, z as int);
        if z == ds.len() {
            lemma_all_zeros(ds@);
        } else {
            let t = ds@.skip(z as int);
            assert(t[0] == ds@[z as int]);
            assert(all_digits(t)) by {
                assert forall|i: int| 0 <= i < t.len() implies crate::number::is_digit(
                    #[trigger] t[i],
                ) by {
                    assert(t[i] == ds@[z + i]);
                }
            }
            lemma_digits_bounds(t);
            crate::number::lemma_pow10_positive((t.len() - 1) as nat);
        }
    }
    z < ds.len()
}

/// Takes a duration argument apart and measures it.
fn measure(v: &Vec<char>) -> (m: Measure)
    ensures
        m.a <= m.ua <= m.b <= v.len(),
        v@.subrange(m.a as int, m.b as int) == trim(v@),
        match duration_reading(v@) {
            DurationReading::Invalid => m.verdict is Invalid,
            DurationReading::UnknownUnit(u) => m.verdict is UnknownUnit && u == v@.subrange(
                m.ua as int,
                m.b as int,
            ),
            DurationReading::NotPositive => m.verdict is NotPositive,
            DurationReading::Nanos(n) => match m.verdict {
                Verdict::TooLong => n >= NANOS_LIMIT,
                Verdict::Nanos(k) => k == n && n < NANOS_LIMIT,
                _ => false,
            },
        },
{
    let (a, b) = trim_bounds(v, 0, v.len());
    assert(v@.subrange(0, v.len() as int) =~= v@);
    let ghost t = trim(v@);
    let ne = skip_end(v, a, b, false);
    let (na, nb) = trim_bounds(v, a, ne);
    assert(t.skip(ne - a) =~= v@.subrange(ne as int, b as int));
    let parts = match read_float(v, na, nb) {
        None => {
            return Measure { a, b, ua: ne, verdict: Verdict::Invalid };
        },
        Some(parts) => parts,
    };
    let (c, p) = match unit_of(v, ne, b) {
        None => {
            return Measure { a, b, ua: ne, verdict: Verdict::UnknownUnit };
        },
        Some(cp) => cp,
    };
    if parts.special {
        return Measure { a, b, ua: ne, verdict: Verdict::NotPositive };
    }
    let ghost f = float_text(v@.subrange(na as int, nb as int)).unwrap();
    let ghost exp = f->exp;
    let ds = join_ranges(v, parts.int_lo, parts.int_hi, parts.frac_lo, parts.frac_hi);
    assert(ds@ == f->whole + f->frac);
    assert(all_digits(ds@)) by {
        assert forall|i: int| 0 <= i < ds@.len() implies crate::number::is_digit(#[trigger] ds@[i]) by {
            if i < f->whole.len() {
                assert(ds@[i] == f->whole[i]);
            } else {
                assert(ds@[i] == f->frac[i - f->whole.len()]);
            }
        }
    }
    if parts.neg || !digits_positive(&ds) {
        return Measure { a, b, ua: ne, verdict: Verdict::NotPositive };
    }
    let frac_len = parts.frac_hi - parts.frac_lo;
    proof {
        assert(pow10(29) == 100_000_000_000_000_000_000_000_000_000nat) by {
            reveal_with_fuel(pow10, 30);
        }
    }
    match round_digits(&ds, frac_len, parts.exp_neg, parts.exp_mag, Ghost(exp), c, p) {
        None => Measure { a, b, ua: ne, verdict: Verdict::TooLong },
        Some(n) => {
            if n >= NANOS_LIMIT {
                Measure { a, b, ua: ne, verdict: Verdict::TooLong }
            } else {
                Measure { a, b, ua: ne, verdict: Verdict::Nanos(n) }
            }
        },
    }
}

/// `prefix`, then `v[lo..hi]`, then `suffix`.
fn quoted(prefix: &str, v: &Vec<char>, lo: usize, hi: usize, suffix: &str) -> (s: String)
    requires
        lo <= hi <= v.len(),
    ensures
        s@ == prefix@ + v@.subrange(lo as int, hi as int) + suffix@,
{
    let mut s = string_of(v, lo, hi);
    let mut out = String::new();
    append_str(&mut out, prefix);
    append_str(&mut out, s.as_str());
    append_str(&mut out, suffix);
    out
}

/// A duration argument taken apart: its number (trimmed), and what its unit
/// is in nanoseconds as `(c, p)`, meaning `c * 10^p`, if the unit is known.
pub open spec fn duration_split(s: Seq<char>) -> (Seq<char>, Option<(nat, nat)>) {
    let t = trim(s);
    let num = trim_end_by(t, alpha());
    (trim(num), unit_scale(t.skip(num.len() as int)))
}

/// The number and the unit of a duration argument, as [`duration_split`] reads them.
pub fn duration_parts(s: &str) -> (r: (String, Option<(u128, u32)>))
    ensures
        r.0@ == duration_split(s@).0,
        match duration_split(s@).1 {
            None => r.1 is None,
            Some((c, p)) => r.1 matches Some((rc, rp)) && rc == c && rp == p,
        },
{
    let v = chars_of(s);
    let (a, b) = trim_bounds(&v, 0, v.len());
    assert(v@.subrange(0, v.len() as int) =~= v@);
    let ghost t = trim(v@);
    let ne = skip_end(&v, a, b, false);
    let (na, nb) = trim_bounds(&v, a, ne);
    assert(t.skip(ne - a) =~= v@.subrange(ne as int, b as int));
    (string_of(&v, na, nb), unit_of(&v, ne, b))
}

/// Whether [`parse_duration`] can be called on `s`: the duration it names, if any,
/// is shorter than `2^64` seconds.
pub fn duration_fits(s: &str) -> (r: bool)
    ensures
        r == duration_in_range(s@),
{
    let v = chars_of(s);
    let m = measure(&v);
    match m.verdict {
        Verdict::TooLong => false,
        _ => true,
    }
}

/// Parse a duration such as `250ms`, `2s`, `1.5m`, `1h` or a bare number of seconds.
///
/// The number is read exactly, in the syntax of `f64` literals, and the duration
/// is rounded to the nearest nanosecond.
pub fn parse_duration(s: &str) -> (r: Result<Duration, String>)
    requires
        duration_in_range(s@),
    ensures
        match duration_reading(s@) {
            DurationReading::Invalid => r matches Err(e) && e@ == "invalid duration '"@ + trim(s@)
                + "'"@,
            DurationReading::UnknownUnit(u) => r matches Err(e) && e@ == "unknown unit '"@ + u
                + "' in duration '"@ + trim(s@) + "'"@,
            DurationReading::NotPositive => r matches Err(e) && e@ == "duration '"@ + trim(s@)
                + "' must be positive"@,
            DurationReading::Nanos(n) => r == Ok::<Duration, String>(
                duration_of((n / 1_000_000_000) as u64, (n % 1_000_000_000) as u32),
            ),
        },
{
    let v = chars_of(s);
    let m = measure(&v);
    match m.verdict {
        Verdict::Invalid => Err(quoted("invalid duration '", &v, m.a, m.b, "'")),
        Verdict::UnknownUnit => {
            let unit = quoted("unknown unit '", &v, m.ua, m.b, "' in duration '");
            let rest = quoted("", &v, m.a, m.b, "'");
            let mut e = unit;
            append_str(&mut e, rest.as_str());
            proof {
                reveal_strlit("");
                assert(""@ =~= Seq::<char>::empty());
            }
            assert(e@ =~= "unknown unit '"@ + v@.subrange(m.ua as int, m.b as int)
                + "' in duration '"@ + v@.subrange(m.a as int, m.b as int) + "'"@);
            Err(e)
        },
        Verdict::NotPositive => Err(quoted("duration '", &v, m.a, m.b, "' must be positive")),
        Verdict::TooLong => {
            proof {
                assert(false);
            }
            Err(String::new())
        },
        Verdict::Nanos(n) => {
            assert(n / 1_000_000_000 < 18_446_744_073_709_551_616u128);
            Ok(new_duration((n / 1_000_000_000) as u64, (n % 1_000_000_000) as u32))
        },
    }
}


/// A character that may trail a number as its unit: a letter, `%` or `°`.
pub open spec fn unit_char() -> spec_fn(char) -> bool {
    |c: char| is_alphabetic(c) || c == '%' || c == '°'
}

/// `s` without a trailing unit, when there is one and something is left.
pub open spec fn unit_stripped(s: Seq<char>) -> Option<Seq<char>> {
    let t = trim_end_by(s, unit_char());
    if t.len() == 0 || t.len() == s.len() {
        None
    } else {
        Some(t)
    }
}

/// `read`, called on a string slice that holds `text`, may return `out`.
pub open spec fn reads_as<V, F: Fn(&str) -> Option<V>>(read: F, text: Seq<char>, out: Option<V>) -> bool {
    exists|t: &str| t@ == text && #[trigger] read.ensures((t,), out)
}

/// `r` is what [`parse_number`] makes of `s` with the number reader `read`: what
/// `read` gives for `s` itself, or else for `s` without its unit.
pub open spec fn read_number<V, F: Fn(&str) -> Option<V>>(read: F, s: Seq<char>, r: Option<V>) -> bool {
    exists|first: Option<V>|
        #![trigger reads_as(read, s, first)]
        reads_as(read, s, first) && match first {
            Some(_) => r == first,
            None => match unit_stripped(s) {
                None => r is None,
                Some(t) => reads_as(read, t, r),
            },
        }
}

fn unit_end(v: &Vec<char>) -> (e: usize)
    ensures
        e <= v.len(),
        v@.subrange(0, e as int) == trim_end_by(v@, unit_char()),
{
    let mut e = v.len();
    assert(v@.subrange(0, e as int) =~= v@);
    while e > 0 && (alphabetic(v[e - 1]) || v[e - 1] == '%' || v[e - 1] == '°')
        invariant
            e <= v.len(),
            trim_end_by(v@.subrange(0, e as int), unit_char()) == trim_end_by(v@, unit_char()),
        decreases e,
    {
        proof {
            crate::text::lemma_trim_end_step(v@, 0, e as int, unit_char());
        }
        e = e - 1;
    }
    e
}

/// Parse a number, tolerating a trailing unit such as `V`, `%` or `°C`.
///
/// `read` reads the number itself (`str::parse::<f64>` in the program).
pub fn parse_number<V, F: Fn(&str) -> Option<V>>(s: &str, read: &F) -> (r: Option<V>)
    requires
        forall|t: &str| read.requires((t,)),
    ensures
        read_number(*read, s@, r),
{
    let first = read(s);
    assert(reads_as(*read, s@, first));
    if first.is_some() {
        return first;
    }
    let v = chars_of(s);
    let e = unit_end(&v);
    if e == 0 || e == v.len() {
        return None;
    }
    let t = string_of(&v, 0, e);
    let ts = t.as_str();
    let second = read(ts);
    assert(reads_as(*read, ts@, second));
    second
}


/// One numeric value found on an input line, optionally tagged with a channel name.
#[derive(Debug, Clone, PartialEq)]
pub struct Field<V> {
    pub key: Option<String>,
    pub value: V,
}

#[derive(Debug, Clone, PartialEq)]
pub enum Parsed<V> {
    /// Blank line, or a comment without channel names.
    Empty,
    /// A line of words only: channel names.
    Header(Vec<String>),
    Values(Vec<Field<V>>),
}

/// A field as the contracts see it: the key's characters and the value.
pub type FieldView<V> = (Option<Seq<char>>, V);

pub ghost enum ParsedView<V> {
    Empty,
    Header(Seq<Seq<char>>),
    Values(Seq<FieldView<V>>),
}

pub open spec fn key_view(k: Option<String>) -> Option<Seq<char>> {
    match k {
        Some(s) => Some(s@),
        None => None,
    }
}

impl<V> View for Field<V> {
    type V = FieldView<V>;

    open spec fn view(&self) -> FieldView<V> {
        (key_view(self.key), self.value)
    }
}

impl<V> View for Parsed<V> {
    type V = ParsedView<V>;

    open spec fn view(&self) -> ParsedView<V> {
        match self {
            Parsed::Empty => ParsedView::Empty,
            Parsed::Header(w) => ParsedView::Header(string_views(w@)),
            Parsed::Values(f) => ParsedView::Values(field_views(f@)),
        }
    }
}

pub open spec fn string_views(s: Seq<String>) -> Seq<Seq<char>> {
    s.map_values(|x: String| x@)
}

pub open spec fn field_views<V>(s: Seq<Field<V>>) -> Seq<FieldView<V>> {
    s.map_values(|x: Field<V>| x@)
}

/// Separators between the tokens of a line: white space, `,` and `;`.
pub open spec fn is_separator(c: char) -> bool {
    is_white_space(c) || c == ',' || c == ';'
}

/// The tokens finished so far and the one being read, after the characters `s`.
pub open spec fn split_state(s: Seq<char>) -> (Seq<Seq<char>>, Seq<char>)
    decreases s.len(),
{
    if s.len() == 0 {
        (Seq::empty(), Seq::empty())
    } else {
        let (done, cur) = split_state(s.drop_last());
        let c = s.last();
        if is_separator(c) {
            (
                if cur.len() > 0 {
                    done.push(cur)
                } else {
                    done
                },
                Seq::empty(),
            )
        } else {
            (done, cur.push(c))
        }
    }
}

/// The non-empty runs of non-separator characters of `s`, in order.
pub open spec fn tokens(s: Seq<char>) -> Seq<Seq<char>> {
    let (done, cur) = split_state(s);
    if cur.len() > 0 {
        done.push(cur)
    } else {
        done
    }
}

/// The text of a line after trimming, without a leading `#`, and whether it had one.
pub open spec fn line_body(line: Seq<char>) -> (Seq<char>, bool) {
    let t = trim(line);
    if t.len() > 0 && t[0] == '#' {
        (t.drop_first(), true)
    } else {
        (t, false)
    }
}

/// `key=value` or `key:value` (the first `=`, else the first `:`), where the key
/// starts with a letter or `_`.
pub open spec fn split_key_spec(tok: Seq<char>) -> Option<(Seq<char>, Seq<char>)> {
    let e = first_index(tok, |c: char| c == '=');
    let c = first_index(tok, |c: char| c == ':');
    let at = if e < tok.len() {
        e
    } else {
        c
    };
    if at < tok.len() {
        let key = tok.take(at);
        if key.len() > 0 && (is_alphabetic(key[0]) || key[0] == '_') {
            Some((key, tok.skip(at + 1)))
        } else {
            None
        }
    } else {
        None
    }
}

/// The text whose number a token contributes: its value if it is `key=value`.
pub open spec fn value_text(tok: Seq<char>) -> Seq<char> {
    match split_key_spec(tok) {
        Some((_, v)) => v,
        None => tok,
    }
}

/// The fields among the first `n` tokens, given the number each one reads as.
pub open spec fn fields_of<V>(toks: Seq<Seq<char>>, nums: Seq<Option<V>>, n: int) -> Seq<
    FieldView<V>,
>
    decreases n,
{
    if n <= 0 {
        Seq::empty()
    } else {
        let rest = fields_of(toks, nums, n - 1);
        let tok = toks[n - 1];
        match nums[n - 1] {
            Some(v) => rest.push(
                (
                    match split_key_spec(tok) {
                        Some((k, _)) => Some(k),
                        None => None,
                    },
                    v,
                ),
            ),
            None => rest,
        }
    }
}

/// The words among the first `n` tokens: plain tokens that are not numbers.
pub open spec fn words_of<V>(toks: Seq<Seq<char>>, nums: Seq<Option<V>>, n: int) -> Seq<
    Seq<char>,
>
    decreases n,
{
    if n <= 0 {
        Seq::empty()
    } else {
        let rest = words_of(toks, nums, n - 1);
        if nums[n - 1] is None && split_key_spec(toks[n - 1]) is None {
            rest.push(toks[n - 1])
        } else {
            rest
        }
    }
}

/// How a line is classified, given the number each of its tokens reads as.
pub open spec fn classify<V>(line: Seq<char>, nums: Seq<Option<V>>) -> ParsedView<V> {
    let (body, comment) = line_body(line);
    let toks = tokens(body);
    let fields = fields_of(toks, nums, toks.len() as int);
    let words = words_of(toks, nums, toks.len() as int);
    if comment {
        if fields.len() == 0 && words.len() > 0 {
            ParsedView::Header(words)
        } else {
            ParsedView::Empty
        }
    } else if fields.len() > 0 {
        ParsedView::Values(fields)
    } else if words.len() > 0 {
        ParsedView::Header(words)
    } else {
        ParsedView::Empty
    }
}


fn is_separator_char(c: char) -> (r: bool)
    ensures
        r == is_separator(c),
{
    white_space(c) || c == ',' || c == ';'
}

/// The bounds of the tokens of `v[lo..hi]`.
fn split_tokens(v: &Vec<char>, lo: usize, hi: usize) -> (r: Vec<(usize, usize)>)
    requires
        lo <= hi <= v.len(),
    ensures
        r.len() == tokens(v@.subrange(lo as int, hi as int)).len(),
        forall|i: int|
            0 <= i < r.len() ==> {
                &&& lo <= (#[trigger] r@[i]).0 <= r@[i].1 <= hi
                &&& v@.subrange(r@[i].0 as int, r@[i].1 as int) == tokens(
                    v@.subrange(lo as int, hi as int),
                )[i]
            },
{
    let mut done: Vec<(usize, usize)> = Vec::new();
    let mut cur: usize = lo;
    let mut i: usize = lo;
    proof {
        assert(v@.subrange(lo as int, lo as int) =~= Seq::<char>::empty());
    }
    while i < hi
        invariant
            lo <= cur <= i <= hi <= v.len(),
            split_state(v@.subrange(lo as int, i as int)).0.len() == done.len(),
            split_state(v@.subrange(lo as int, i as int)).1 == v@.subrange(cur as int, i as int),
            forall|k: int|
                0 <= k < done.len() ==> {
                    &&& lo <= (#[trigger] done@[k]).0 <= done@[k].1 <= hi
                    &&& v@.subrange(done@[k].0 as int, done@[k].1 as int) == split_state(
                        v@.subrange(lo as int, i as int),
                    ).0[k]
                },
        decreases hi - i,
    {
        let ghost pre = v@.subrange(lo as int, i as int);
        assert(v@.subrange(lo as int, i + 1).drop_last() =~= pre);
        assert(v@.subrange(lo as int, i + 1).last() == v@[i as int]);
        if is_separator_char(v[i]) {
            if cur < i {
                done.push((cur, i));
            }
            cur = i + 1;
            assert(v@.subrange(cur as int, i + 1) =~= Seq::<char>::empty());
        } else {
            assert(v@.subrange(cur as int, i + 1) =~= v@.subrange(cur as int, i as int).push(
                v@[i as int],
            ));
        }
        i = i + 1;
    }
    if cur < hi {
        done.push((cur, hi));
    }
    done
}

/// Where a token splits into `key` and `value`: the index of the `=` or `:`.
fn split_key(v: &Vec<char>, lo: usize, hi: usize) -> (r: Option<usize>)
    requires
        lo <= hi <= v.len(),
    ensures
        match split_key_spec(v@.subrange(lo as int, hi as int)) {
            None => r is None,
            Some((k, val)) => r matches Some(at) && lo < at < hi && k == v@.subrange(
                lo as int,
                at as int,
            ) && val == v@.subrange(at + 1, hi as int),
        },
{
    let ghost tok = v@.subrange(lo as int, hi as int);
    let e = find_char(v, lo, hi, '=');
    let c = find_char(v, lo, hi, ':');
    let at = if e < hi {
        e
    } else {
        c
    };
    if at < hi {
        assert(tok.take(at - lo) =~= v@.subrange(lo as int, at as int));
        assert(tok.skip(at - lo + 1) =~= v@.subrange(at + 1, hi as int));
        if at > lo && (alphabetic(v[lo]) || v[lo] == '_') {
            assert(tok.take(at - lo)[0] == v@[lo as int]);
            Some(at)
        } else {
            if at > lo {
                assert(tok.take(at - lo)[0] == v@[lo as int]);
            }
            None
        }
    } else {
        None
    }
}

/// The first index of `ch` in `v[lo..hi]`, or `hi`.
fn find_char(v: &Vec<char>, lo: usize, hi: usize, ch: char) -> (r: usize)
    requires
        lo <= hi <= v.len(),
    ensures
        lo <= r <= hi,
        first_index(v@.subrange(lo as int, hi as int), |c: char| c == ch) == r - lo,
{
    let ghost p = |c: char| c == ch;
    let mut i = lo;
    while i < hi && v[i] != ch
        invariant
            lo <= i <= hi <= v.len(),
            forall|j: int| lo <= j < i ==> v@[j] != ch,
        decreases hi - i,
    {
        i = i + 1;
    }
    proof {
        let s = v@.subrange(lo as int, hi as int);
        assert forall|j: int| 0 <= j < i - lo implies !p(#[trigger] s[j]) by {
            assert(s[j] == v@[lo + j]);
        }
        if i < hi {
            assert(s[i - lo] == v@[i as int]);
        }
        crate::number::lemma_first_index(s, p, i - lo);
    }
    i
}

/// Parse one line of input.
///
/// Accepted forms (separators are whitespace, `,` or `;`):
///   `1.5 2.7 -3`            positional values, one per channel
///   `temp=21.5 rh:40%`      named values
///   `time temp humidity`    header naming the channels
///   `# time temp`           comment header
/// Trailing units (`21.5C`, `40%`) are ignored. Words mixed in with numbers are skipped.
///
/// `read` reads a number (`str::parse::<f64>` in the program); the result is the
/// classification of the line for the numbers that `read` returned.
pub fn parse_line<V, F: Fn(&str) -> Option<V>>(line: &str, read: &F) -> (r: Parsed<V>)
    requires
        forall|t: &str| read.requires((t,)),
    ensures
        exists|nums: Seq<Option<V>>|
            #![trigger classify(line@, nums)]
            {
                let toks = tokens(line_body(line@).0);
                &&& nums.len() == toks.len()
                &&& forall|i: int|
                    0 <= i < toks.len() ==> read_number(*read, value_text(toks[i]), #[trigger] nums[i])
                &&& r@ == classify(line@, nums)
            },
{
    let v = chars_of(line);
    let (a, b) = trim_bounds(&v, 0, v.len());
    assert(v@.subrange(0, v.len() as int) =~= v@);
    let comment = a < b && v[a] == '#';
    let start = if comment {
        a + 1
    } else {
        a
    };
    let ghost body = line_body(line@).0;
    proof {
        if comment {
            assert(trim(v@).drop_first() =~= v@.subrange(start as int, b as int));
        }
        if a < b {
            assert(trim(v@)[0] == v@[a as int]);
        }
    }
    assert(body == v@.subrange(start as int, b as int));
    let toks = split_tokens(&v, start, b);
    let ghost ts = tokens(body);
    let ghost mut nums: Seq<Option<V>> = Seq::empty();
    let mut fields: Vec<Field<V>> = Vec::new();
    let mut words: Vec<String> = Vec::new();
    let mut i: usize = 0;
    assert(field_views(fields@) =~= Seq::<FieldView<V>>::empty());
    assert(string_views(words@) =~= Seq::<Seq<char>>::empty());
    while i < toks.len()
        invariant
            i <= toks.len() == ts.len(),
            ts == tokens(body),
            forall|k: int|
                0 <= k < toks.len() ==> {
                    &&& (#[trigger] toks@[k]).0 <= toks@[k].1 <= v.len()
                    &&& v@.subrange(toks@[k].0 as int, toks@[k].1 as int) == ts[k]
                },
            forall|t: &str| read.requires((t,)),
            nums.len() == i,
            forall|k: int| 0 <= k < i ==> read_number(*read, value_text(ts[k]), #[trigger] nums[k]),
            field_views(fields@) == fields_of(ts, nums, i as int),
            string_views(words@) == words_of(ts, nums, i as int),
        decreases toks.len() - i,
    {
        let (lo, hi) = toks[i];
        let ghost tok = ts[i as int];
        let key_at = split_key(&v, lo, hi);
        let (key, vlo) = match key_at {
            Some(at) => (Some(string_of(&v, lo, at)), at + 1),
            None => (None, lo),
        };
        let text = string_of(&v, vlo, hi);
        assert(text@ == value_text(tok));
        let num = parse_number(text.as_str(), read);
        let ghost prev = nums;
        proof {
            nums = nums.push(num);
            assert(nums.drop_last() =~= prev);
            assert forall|k: int| 0 <= k <= i implies read_number(
                *read,
                value_text(ts[k]),
                #[trigger] nums[k],
            ) by {
                if k < i {
                    assert(nums[k] == nums.drop_last()[k]);
                }
            }
            assert(fields_of(ts, nums.drop_last(), i as int) == fields_of(ts, nums, i as int)) by {
                lemma_fields_prefix(ts, nums.drop_last(), nums, i as int);
            }
            assert(words_of(ts, nums.drop_last(), i as int) == words_of(ts, nums, i as int)) by {
                lemma_words_prefix(ts, nums.drop_last(), nums, i as int);
            }
        }
        let ghost old_fields = fields@;
        let ghost old_words = words@;
        let ghost kv = match split_key_spec(tok) {
            Some((k, _)) => Some(k),
            None => None,
        };
        assert(key_view(key) == kv);
        assert(nums[i as int] == num);
        assert(words_of(ts, nums, i + 1) == if num is None && split_key_spec(tok) is None {
            words_of(ts, nums, i as int).push(tok)
        } else {
            words_of(ts, nums, i as int)
        });
        assert(fields_of(ts, nums, i + 1) == match num {
            Some(x) => fields_of(ts, nums, i as int).push((kv, x)),
            None => fields_of(ts, nums, i as int),
        });
        match num {
            Some(value) => {
                let f = Field { key, value };
                fields.push(f);
                assert(field_views(fields@) =~= field_views(old_fields).push(f@));
                assert(f@ == (kv, value));
                assert(field_views(fields@) == fields_of(ts, nums, i + 1));
                assert(string_views(words@) == words_of(ts, nums, i + 1));
            },
            None => {
                if key_at.is_none() {
                    words.push(text);
                    assert(string_views(words@) =~= string_views(old_words).push(tok));
                }
                assert(field_views(fields@) == fields_of(ts, nums, i + 1));
                assert(string_views(words@) == words_of(ts, nums, i + 1));
            },
        }
        i = i + 1;
    }
    let r = if comment {
        if fields.len() == 0 && words.len() > 0 {
            Parsed::Header(words)
        } else {
            Parsed::Empty
        }
    } else if fields.len() > 0 {
        Parsed::Values(fields)
    } else if words.len() > 0 {
        Parsed::Header(words)
    } else {
        Parsed::Empty
    };
    assert(r@ == classify(line@, nums));
    r
}

/// Extending the numbers past `n` does not change the fields among the first `n`.
proof fn lemma_fields_prefix<V>(toks: Seq<Seq<char>>, a: Seq<Option<V>>, b: Seq<Option<V>>, n: int)
    requires
        0 <= n <= a.len() <= b.len(),
        forall|k: int| 0 <= k < a.len() ==> a[k] == b[k],
    ensures
        fields_of(toks, a, n) == fields_of(toks, b, n),
    decreases n,
{
    if n > 0 {
        lemma_fields_prefix(toks, a, b, n - 1);
    }
}

proof fn lemma_words_prefix<V>(toks: Seq<Seq<char>>, a: Seq<Option<V>>, b: Seq<Option<V>>, n: int)
    requires
        0 <= n <= a.len() <= b.len(),
        forall|k: int| 0 <= k < a.len() ==> a[k] == b[k],
    ensures
        words_of(toks, a, n) == words_of(toks, b, n),
    decreases n,
{
    if n > 0 {
        lemma_words_prefix(toks, a, b, n - 1);
    }
}


proof fn lemma_split_append(a: Seq<char>, b: Seq<char>, y: Seq<char>)
    requires
        split_state(a) == split_state(b),
    ensures
        split_state(a + y) == split_state(b + y),
    decreases y.len(),
{
    if y.len() > 0 {
        lemma_split_append(a, b, y.drop_last());
        assert((a + y).drop_last() =~= a + y.drop_last());
        assert((b + y).drop_last() =~= b + y.drop_last());
        assert((a + y).last() == y.last());
        assert((b + y).last() == y.last());
    }
}

/// Spaces, commas and semicolons separate values alike: putting one in place of
/// another gives the same tokens.
pub proof fn lemma_separators_alike(a: Seq<char>, b: Seq<char>, c: char, d: char)
    requires
        is_separator(c),
        is_separator(d),
    ensures
        tokens(a + seq![c] + b) == tokens(a + seq![d] + b),
{
    let x = a + seq![c];
    let y = a + seq![d];
    assert(x.drop_last() =~= a);
    assert(y.drop_last() =~= a);
    assert(split_state(x) == split_state(y));
    lemma_split_append(x, y, b);
}

proof fn lemma_split_clean(s: Seq<char>)
    ensures
        forall|i: int|
            0 <= i < split_state(s).0.len() ==> {
                &&& (#[trigger] split_state(s).0[i]).len() > 0
                &&& forall|j: int| 0 <= j < split_state(s).0[i].len() ==> !is_separator(split_state(s).0[i][j])
            },
        forall|j: int| 0 <= j < split_state(s).1.len() ==> !is_separator(split_state(s).1[j]),
    decreases s.len(),
{
    if s.len() > 0 {
        lemma_split_clean(s.drop_last());
        let (d, c) = split_state(s.drop_last());
        let ch = s.last();
        if is_separator(ch) {
            if c.len() > 0 {
                let nd = d.push(c);
                assert forall|i: int| 0 <= i < nd.len() implies {
                    &&& (#[trigger] nd[i]).len() > 0
                    &&& forall|j: int| 0 <= j < nd[i].len() ==> !is_separator(nd[i][j])
                } by {
                    if i < d.len() {
                        assert(nd[i] == d[i]);
                    }
                }
            }
        } else {
            let nc = c.push(ch);
            assert forall|j: int| 0 <= j < nc.len() implies !is_separator(nc[j]) by {
                if j < c.len() {
                    assert(nc[j] == c[j]);
                }
            }
        }
    }
}

/// Every token is non-empty and holds no separator.
pub proof fn lemma_tokens_clean(s: Seq<char>)
    ensures
        forall|i: int|
            0 <= i < tokens(s).len() ==> {
                &&& (#[trigger] tokens(s)[i]).len() > 0
                &&& forall|j: int| 0 <= j < tokens(s)[i].len() ==> !is_separator(tokens(s)[i][j])
            },
{
    lemma_split_clean(s);
    let (d, c) = split_state(s);
    if c.len() > 0 {
        let t = d.push(c);
        assert forall|i: int| 0 <= i < t.len() implies {
            &&& (#[trigger] t[i]).len() > 0
            &&& forall|j: int| 0 <= j < t[i].len() ==> !is_separator(t[i][j])
        } by {
            if i < d.len() {
                assert(t[i] == d[i]);
            }
        }
    }
}

/// A comment line (one starting with `#`) never carries values: it names the
/// channels, or is skipped.
pub proof fn lemma_comment_has_no_values<V>(line: Seq<char>, nums: Seq<Option<V>>)
    requires
        line_body(line).1,
    ensures
        !(classify(line, nums) is Values),
{
}

/// A header always has at least one name.
pub proof fn lemma_header_not_empty<V>(line: Seq<char>, nums: Seq<Option<V>>)
    ensures
        classify(line, nums) matches ParsedView::Header(ws) ==> ws.len() > 0,
{
}


/// Reading on with characters that are not separators extends the token being read.
proof fn lemma_split_word(x: Seq<char>, y: Seq<char>)
    requires
        forall|j: int| 0 <= j < y.len() ==> !is_separator(#[trigger] y[j]),
    ensures
        split_state(x + y) == (split_state(x).0, split_state(x).1 + y),
    decreases y.len(),
{
    if y.len() == 0 {
        assert(x + y =~= x);
        assert(split_state(x).1 + y =~= split_state(x).1);
    } else {
        let yl = y.drop_last();
        lemma_split_word(x, yl);
        assert((x + y).drop_last() =~= x + yl);
        assert((x + y).last() == y.last());
        assert(split_state(x).1 + yl.push(y.last()) =~= (split_state(x).1 + yl).push(y.last()));
        assert(yl.push(y.last()) =~= y);
    }
}

/// Two words with a separator between them, a tab as much as a space, comma
/// or semicolon, are two tokens.
pub proof fn lemma_two_tokens(a: Seq<char>, b: Seq<char>, c: char)
    requires
        a.len() > 0,
        b.len() > 0,
        forall|j: int| 0 <= j < a.len() ==> !is_separator(#[trigger] a[j]),
        forall|j: int| 0 <= j < b.len() ==> !is_separator(#[trigger] b[j]),
        c == '\t' || c == ' ' || c == ',' || c == ';',
    ensures
        tokens(a + seq![c] + b) == seq![a, b],
{
    let e = Seq::<char>::empty();
    lemma_split_word(e, a);
    assert(e + a =~= a);
    assert(split_state(e) == (Seq::<Seq<char>>::empty(), e));
    assert(e + a =~= a);
    let ac = a + seq![c];
    assert(ac.drop_last() =~= a);
    assert(is_separator(c));
    assert(split_state(ac) == (seq![a], e)) by {
        assert(split_state(a) == (Seq::<Seq<char>>::empty(), e + a));
        assert(Seq::<Seq<char>>::empty().push(a) =~= seq![a]);
    }
    lemma_split_word(ac, b);
    assert(e + b =~= b);
    assert(seq![a].push(b) =~= seq![a, b]);
}

} // verus!
