//! Writing times and spans as text.

use vstd::prelude::*;

use crate::number::{all_digits, digit_value, digits_value, is_digit, pow10};
use crate::text::{append_str, chars_of, decimal, decimal_string, digit_char, push_char, string_of, trim_end_by};

verus! {

/// `n` in decimal, with zeros in front to make at least `width` digits.
pub open spec fn padded(n: nat, width: nat) -> Seq<char> {
    let d = decimal(n);
    if d.len() < width {
        Seq::new((width - d.len()) as nat, |i: int| '0') + d
    } else {
        d
    }
}

/// An elapsed time of `units` tenths, hundredths or thousandths of a second
/// (`dec` fractional digits): `m:ss`, or `h:mm:ss` from an hour on, then the
/// fraction.
pub open spec fn clock_text(units: nat, dec: nat) -> Seq<char> {
    let scale = pow10(dec);
    let secs = units / scale;
    let h = secs / 3600;
    let m = secs / 60 % 60;
    let s = secs % 60;
    let whole = if h > 0 {
        decimal(h) + seq![':'] + padded(m, 2) + seq![':'] + padded(s, 2)
    } else {
        decimal(m) + seq![':'] + padded(s, 2)
    };
    if dec > 0 {
        whole + seq!['.'] + padded(units % scale, dec)
    } else {
        whole
    }
}

/// `n` in decimal with at least `width` digits.
pub fn padded_string(n: u64, width: usize) -> (s: String)
    ensures
        s@ == padded(n as nat, width as nat),
{
    let d = decimal_string(n);
    let len = chars_of(d.as_str()).len();
    if len < width {
        let mut s = String::new();
        let mut i: usize = 0;
        while i < width - len
            invariant
                len < width,
                i <= width - len,
                s@ == Seq::new(i as nat, |k: int| '0'),
            decreases width - len - i,
        {
            push_char(&mut s, '0');
            assert(s@ =~= Seq::new((i + 1) as nat, |k: int| '0'));
            i = i + 1;
        }
        append_str(&mut s, d.as_str());
        s
    } else {
        d
    }
}

fn power_of_ten(dec: u32) -> (p: u64)
    requires
        dec <= 19,
    ensures
        p == pow10(dec as nat),
{
    let mut p: u64 = 1;
    let mut k: u32 = 0;
    while k < dec
        invariant
            k <= dec <= 19,
            p == pow10(k as nat),
        decreases dec - k,
    {
        proof {
            crate::number::lemma_pow10_monotone((k + 1) as nat, 19);
        }
        assert(pow10(19) == 10_000_000_000_000_000_000nat) by {
            reveal_with_fuel(pow10, 20);
        }
        p = p * 10;
        k = k + 1;
    }
    p
}

/// An elapsed time as a clock reading; `units` are `10^-dec` seconds.
pub fn clock(units: u64, dec: u32) -> (s: String)
    requires
        dec <= 19,
    ensures
        s@ == clock_text(units as nat, dec as nat),
{
    let scale = power_of_ten(dec);
    proof {
        crate::number::lemma_pow10_positive(dec as nat);
    }
    let secs = units / scale;
    let h = secs / 3600;
    let m = secs / 60 % 60;
    let sec = secs % 60;
    let mut out = String::new();
    if h > 0 {
        append_str(&mut out, decimal_string(h).as_str());
        push_char(&mut out, ':');
        append_str(&mut out, padded_string(m, 2).as_str());
        push_char(&mut out, ':');
        append_str(&mut out, padded_string(sec, 2).as_str());
    } else {
        append_str(&mut out, decimal_string(m).as_str());
        push_char(&mut out, ':');
        append_str(&mut out, padded_string(sec, 2).as_str());
    }
    if dec > 0 {
        push_char(&mut out, '.');
        append_str(&mut out, padded_string(units % scale, dec as usize).as_str());
    }
    proof {
        let whole = if h > 0 {
            decimal(h as nat) + seq![':'] + padded(m as nat, 2) + seq![':'] + padded(sec as nat, 2)
        } else {
            decimal(m as nat) + seq![':'] + padded(sec as nat, 2)
        };
        if dec > 0 {
            assert(out@ =~= whole + seq!['.'] + padded((units % scale) as nat, dec as nat));
        } else {
            assert(out@ =~= whole);
        }
    }
    out
}

pub open spec fn is_zero_digit() -> spec_fn(char) -> bool {
    |c: char| c == '0'
}

pub open spec fn is_point() -> spec_fn(char) -> bool {
    |c: char| c == '.'
}

/// A number written with a fraction, without trailing zeros and then without
/// a trailing point: `1.50` becomes `1.5`, `2.0` becomes `2`.
pub open spec fn trimmed_decimal(n: Seq<char>) -> Seq<char> {
    trim_end_by(trim_end_by(n, is_zero_digit()), is_point())
}

/// `n` with trailing zeros, then trailing points, removed.
pub fn trim_decimal(n: &str) -> (s: String)
    ensures
        s@ == trimmed_decimal(n@),
{
    let v = chars_of(n);
    let mut end = v.len();
    assert(v@.subrange(0, end as int) =~= n@);
    while end > 0 && v[end - 1] == '0'
        invariant
            end <= v@.len(),
            v@ == n@,
            trim_end_by(v@.subrange(0, end as int), is_zero_digit()) == trim_end_by(n@, is_zero_digit()),
        decreases end,
    {
        proof {
            crate::text::lemma_trim_end_step(v@, 0, end as int, is_zero_digit());
        }
        end = end - 1;
    }
    let ghost z = v@.subrange(0, end as int);
    assert(trim_end_by(z, is_zero_digit()) == z) by {
        if z.len() > 0 {
            assert(z.last() == v@[end - 1]);
        }
    }
    let mid = end;
    while end > 0 && v[end - 1] == '.'
        invariant
            end <= mid <= v@.len(),
            v@ == n@,
            z == v@.subrange(0, mid as int),
            trim_end_by(v@.subrange(0, end as int), is_point()) == trim_end_by(z, is_point()),
        decreases end,
    {
        proof {
            crate::text::lemma_trim_end_step(v@, 0, end as int, is_point());
        }
        end = end - 1;
    }
    let ghost q = v@.subrange(0, end as int);
    assert(trim_end_by(q, is_point()) == q) by {
        if q.len() > 0 {
            assert(q.last() == v@[end - 1]);
        }
    }
    string_of(&v, 0, end)
}


proof fn lemma_digit_char(d: nat)
    requires
        d < 10,
    ensures
        is_digit(digit_char(d)),
        digit_value(digit_char(d)) == d,
        d > 0 ==> digit_char(d) != '0',
{
}

/// `n` in decimal: digits only, worth `n`, without a leading zero (but for `0`
/// itself), and no longer than `k` digits when `n < 10^k`.
pub proof fn lemma_decimal(n: nat, k: nat)
    ensures
        decimal(n).len() >= 1,
        all_digits(decimal(n)),
        digits_value(decimal(n)) == n,
        n > 0 ==> decimal(n)[0] != '0',
        k >= 1 && n < pow10(k) ==> decimal(n).len() <= k,
    decreases n,
{
    if n < 10 {
        lemma_digit_char(n);
        let d = decimal(n);
        assert(d.drop_last() =~= Seq::<char>::empty());
        assert(digits_value(d) == digits_value(d.drop_last()) * 10 + digit_value(d.last()));
    } else {
        let q = n / 10;
        let kk = if k >= 1 {
            (k - 1) as nat
        } else {
            0
        };
        lemma_decimal(q, kk);
        lemma_digit_char(n % 10);
        let d = decimal(n);
        let dq = decimal(q);
        assert(d == dq.push(digit_char(n % 10)));
        assert(d.drop_last() =~= dq);
        assert(d.last() == digit_char(n % 10));
        assert(digits_value(d) == digits_value(dq) * 10 + digit_value(digit_char(n % 10)));
        assert(n == q * 10 + n % 10);
        assert forall|i: int| 0 <= i < d.len() implies is_digit(#[trigger] d[i]) by {
            if i < dq.len() {
                assert(d[i] == dq[i]);
            }
        }
        assert(d[0] == dq[0]);
        if k >= 1 && n < pow10(k) {
            if k == 1 {
                assert(pow10(1) == 10) by {
                    reveal_with_fuel(pow10, 2);
                }
            } else {
                assert(pow10(k) == 10 * pow10(kk));
                assert(q < pow10(kk));
            }
        }
    }
}

/// `n` padded to `width` digits, when it has no more: exactly `width` digits,
/// worth `n`.
pub proof fn lemma_padded(n: nat, width: nat)
    requires
        width >= 1,
        n < pow10(width),
    ensures
        padded(n, width).len() == width,
        all_digits(padded(n, width)),
        digits_value(padded(n, width)) == n,
{
    lemma_decimal(n, width);
    let d = decimal(n);
    if d.len() < width {
        let z = (width - d.len()) as nat;
        let zeros = Seq::new(z, |i: int| '0');
        let p = zeros + d;
        assert(padded(n, width) == p);
        assert forall|i: int| 0 <= i < p.len() implies is_digit(#[trigger] p[i]) by {
            if i >= z {
                assert(p[i] == d[i - z]);
            }
        }
        crate::number::lemma_leading_zeros(p, z as int);
        assert(p.skip(z as int) =~= d);
    }
}

/// A clock reading reads back as the time it shows: after the last `:` two
/// digits of seconds, before it two digits of minutes and a `:` with the hours
/// in front from an hour on, or else the minutes alone; and with `dec > 0`, a
/// point and exactly `dec` digits of fraction, worth `units % 10^dec`.
pub proof fn lemma_clock(units: nat, dec: nat)
    ensures
        ({
            let t = clock_text(units, dec);
            let secs = units / pow10(dec);
            let f = if dec > 0 {
                dec + 1
            } else {
                0
            };
            let w = t.take(t.len() - f);
            let head = w.take(w.len() - 3);
            &&& t.len() >= f + 4
            &&& dec > 0 ==> {
                &&& t[t.len() - dec - 1] == '.'
                &&& all_digits(t.skip(t.len() - dec))
                &&& digits_value(t.skip(t.len() - dec)) == units % pow10(dec)
            }
            &&& w[w.len() - 3] == ':'
            &&& all_digits(w.skip(w.len() - 2))
            &&& digits_value(w.skip(w.len() - 2)) == secs % 60
            &&& secs >= 3600 ==> {
                &&& head.len() >= 4
                &&& head[head.len() - 3] == ':'
                &&& all_digits(head.skip(head.len() - 2))
                &&& digits_value(head.skip(head.len() - 2)) == secs / 60 % 60
                &&& all_digits(head.take(head.len() - 3))
                &&& digits_value(head.take(head.len() - 3)) == secs / 3600
                &&& head[0] != '0'
            }
            &&& secs < 3600 ==> {
                &&& head.len() >= 1
                &&& all_digits(head)
                &&& digits_value(head) == secs / 60
                &&& (secs >= 60 ==> head[0] != '0')
            }
        }),
{
    let t = clock_text(units, dec);
    let scale = pow10(dec);
    crate::number::lemma_pow10_positive(dec);
    let secs = units / scale;
    let h = secs / 3600;
    let m = secs / 60 % 60;
    let sec = secs % 60;
    assert(pow10(2) == 100) by {
        reveal_with_fuel(pow10, 3);
    }
    lemma_padded(m, 2);
    lemma_padded(sec, 2);
    let m2 = padded(m, 2);
    let s2 = padded(sec, 2);
    let whole = if h > 0 {
        decimal(h) + seq![':'] + m2 + seq![':'] + s2
    } else {
        decimal(m) + seq![':'] + s2
    };
    lemma_decimal(h, 0);
    lemma_decimal(m, 0);
    let f: int = if dec > 0 {
        dec + 1int
    } else {
        0int
    };
    if dec > 0 {
        let fr = padded(units % scale, dec);
        lemma_padded(units % scale, dec);
        assert(t == whole + seq!['.'] + fr);
        assert(t.take(t.len() - f) =~= whole);
        assert(t.skip(t.len() - dec) =~= fr);
        assert(t[t.len() - dec - 1] == '.');
    } else {
        assert(t.take(t.len() - f) =~= whole);
    }
    let w = t.take(t.len() - f);
    assert(w == whole);
    assert(w.skip(w.len() - 2) =~= s2);
    let head = w.take(w.len() - 3);
    if h > 0 {
        assert(head =~= decimal(h) + seq![':'] + m2);
        assert(head.skip(head.len() - 2) =~= m2);
        assert(head.take(head.len() - 3) =~= decimal(h));
        assert(secs >= 3600);
    } else {
        assert(head =~= decimal(m));
        assert(secs < 3600);
        assert(m == secs / 60);
    }
}

} // verus!
