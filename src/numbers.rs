//! The numeric tokens of the exposition format.
//!
//! A sample value is kept as the text the endpoint wrote, checked against
//! the grammar that `f64::from_str` accepts; a cumulative count must be a
//! whole number and is read as a `u64`.

use crate::text::{chars_of, find_from};
use vstd::prelude::*;

verus! {

pub open spec fn is_digit(c: char) -> bool {
    48 <= (c as u32) && (c as u32) <= 57
}

pub open spec fn is_sign(c: char) -> bool {
    c == '+' || c == '-'
}

pub open spec fn is_exp_mark(c: char) -> bool {
    c == 'e' || c == 'E'
}

/// `t` without a leading sign.
pub open spec fn unsigned_part(t: Seq<char>) -> Seq<char> {
    if t.len() > 0 && is_sign(t[0]) {
        t.skip(1)
    } else {
        t
    }
}

/// `c` is the lower-case ASCII letter `l`, in either case.
pub open spec fn same_letter(c: char, l: char) -> bool {
    c == l || (c as u32) + 32 == (l as u32)
}

/// `u` spells the lower-case word `w`, ignoring ASCII case.
pub open spec fn spells(u: Seq<char>, w: Seq<char>) -> bool {
    u.len() == w.len() && forall|i: int| 0 <= i < u.len() ==> same_letter(u[i], w[i])
}

pub open spec fn is_special(u: Seq<char>) -> bool {
    spells(u, seq!['i', 'n', 'f']) || spells(u, seq!['i', 'n', 'f', 'i', 'n', 'i', 't', 'y'])
        || spells(u, seq!['n', 'a', 'n'])
}

/// Digits with at most one decimal point, and at least one digit.
pub open spec fn is_mantissa(m: Seq<char>) -> bool {
    &&& forall|i: int| 0 <= i < m.len() ==> is_digit(m[i]) || m[i] == '.'
    &&& forall|i: int, j: int| 0 <= i < j < m.len() ==> !(m[i] == '.' && m[j] == '.')
    &&& exists|i: int| 0 <= i < m.len() && is_digit(m[i])
}

/// An optional sign followed by at least one digit.
pub open spec fn is_exponent(x: Seq<char>) -> bool {
    let y = unsigned_part(x);
    y.len() > 0 && forall|i: int| 0 <= i < y.len() ==> is_digit(y[i])
}

/// `k` is the first exponent mark of `u`.
pub open spec fn is_first_exp_at(u: Seq<char>, k: int) -> bool {
    0 <= k < u.len() && is_exp_mark(u[k]) && forall|j: int| 0 <= j < k ==> !is_exp_mark(u[j])
}

pub open spec fn is_number(u: Seq<char>) -> bool {
    if exists|k: int| is_first_exp_at(u, k) {
        let k = choose|k: int| is_first_exp_at(u, k);
        is_mantissa(u.take(k)) && is_exponent(u.skip(k + 1))
    } else {
        is_mantissa(u)
    }
}

/// `t` is a floating-point literal as `f64::from_str` accepts it: an optional
/// sign, then `inf`, `infinity` or `nan` in any case, or a decimal number with
/// an optional exponent.
pub open spec fn is_float_text(t: Seq<char>) -> bool {
    let u = unsigned_part(t);
    is_special(u) || is_number(u)
}

/// The value of a run of decimal digits.
pub open spec fn digits_value(s: Seq<char>) -> int
    decreases s.len(),
{
    if s.len() == 0 {
        0
    } else {
        digits_value(s.drop_last()) * 10 + ((s.last() as u32) - 48)
    }
}

pub open spec fn all_digits(s: Seq<char>) -> bool {
    forall|i: int| 0 <= i < s.len() ==> is_digit(s[i])
}

/// The digits of a whole number before its optional decimal point.
pub open spec fn whole_part(t: Seq<char>) -> Seq<char> {
    match find_from(t, '.', 0) {
        Some(d) => t.take(d),
        None => t,
    }
}

/// The digits after the decimal point of a mantissa.
pub open spec fn frac_part(m: Seq<char>) -> Seq<char> {
    match find_from(m, '.', 0) {
        Some(d) => m.skip(d + 1),
        None => Seq::empty(),
    }
}

/// The mantissa and the exponent text (after the `e`) of an unsigned number.
pub open spec fn number_parts(u: Seq<char>) -> (Seq<char>, Seq<char>) {
    if exists|k: int| is_first_exp_at(u, k) {
        let k = choose|k: int| is_first_exp_at(u, k);
        (u.take(k), u.skip(k + 1))
    } else {
        (u, Seq::empty())
    }
}

/// The value of an exponent text: an optional sign and digits.
pub open spec fn exponent_value(x: Seq<char>) -> int {
    if x.len() > 0 && x[0] == '-' {
        -digits_value(unsigned_part(x))
    } else {
        digits_value(unsigned_part(x))
    }
}

pub open spec fn pow10(n: nat) -> int
    decreases n,
{
    if n == 0 {
        1
    } else {
        10 * pow10((n - 1) as nat)
    }
}

/// The integer part of an unsigned decimal number: its digits, with the
/// decimal point moved by the exponent, cut at the point.
pub open spec fn truncated(u: Seq<char>) -> int {
    let (m, x) = number_parts(u);
    let digits = whole_part(m) + frac_part(m);
    let shift = exponent_value(x) - frac_part(m).len();
    if shift >= 0 {
        digits_value(digits) * pow10(shift as nat)
    } else if digits.len() + shift > 0 {
        digits_value(digits.take(digits.len() + shift))
    } else {
        0
    }
}

/// The integer part of the digits `digits` with `p` of them after the
/// decimal point, times ten to the `e`.
pub open spec fn shifted_value(digits: Seq<char>, p: int, e: int) -> int {
    let shift = e - p;
    if shift >= 0 {
        digits_value(digits) * pow10(shift as nat)
    } else if digits.len() + shift > 0 {
        digits_value(digits.take(digits.len() + shift))
    } else {
        0
    }
}

/// `v`, or `cap` where `v` is larger.
pub open spec fn capped(v: int, cap: int) -> int {
    if v > cap {
        cap
    } else {
        v
    }
}

/// What a count token reads as, as an `f64` value converted by `as u64` reads:
/// the fraction is dropped, a negative value and NaN give 0, a value too large
/// (infinity among them) gives `u64::MAX`. Not a number at all: none.
pub open spec fn count_value(t: Seq<char>) -> Option<u64> {
    let u = unsigned_part(t);
    if !is_float_text(t) {
        None
    } else if spells(u, seq!['n', 'a', 'n']) || (t.len() > 0 && t[0] == '-') {
        Some(0)
    } else if is_special(u) {
        Some(u64::MAX)
    } else {
        Some(capped(truncated(u), u64::MAX as int) as u64)
    }
}

fn is_digit_char(c: char) -> (r: bool)
    ensures
        r == is_digit(c),
{
    let u = c as u32;
    48 <= u && u <= 57
}

fn same_letter_char(c: char, l: char) -> (r: bool)
    ensures
        r == same_letter(c, l),
{
    let cu = c as u32;
    let lu = l as u32;
    c == l || (cu < 0xffff_ffe0 && cu + 32 == lu)
}

fn spells_range(s: &Vec<char>, lo: usize, hi: usize, w: &str) -> (r: bool)
    requires
        lo <= hi <= s.len(),
    ensures
        r == spells(s@.subrange(lo as int, hi as int), w@),
{
    let wc = chars_of(w);
    if hi - lo != wc.len() {
        return false;
    }
    let mut i: usize = 0;
    while i < wc.len()
        invariant
            wc@ == w@,
            lo <= hi <= s.len(),
            hi - lo == wc.len(),
            i <= wc.len(),
            forall|j: int| 0 <= j < i ==> same_letter(s@[lo + j], wc@[j]),
        decreases wc.len() - i,
    {
        if !same_letter_char(s[lo + i], wc[i]) {
            assert(!same_letter(s@.subrange(lo as int, hi as int)[i as int], w@[i as int]));
            return false;
        }
        i += 1;
    }
    true
}

fn is_mantissa_range(s: &Vec<char>, lo: usize, hi: usize) -> (r: bool)
    requires
        lo <= hi <= s.len(),
    ensures
        r == is_mantissa(s@.subrange(lo as int, hi as int)),
{
    let ghost m = s@.subrange(lo as int, hi as int);
    let mut i: usize = lo;
    let mut dot: Option<usize> = None;
    let mut digit = false;
    while i < hi
        invariant
            lo <= i <= hi <= s.len(),
            m == s@.subrange(lo as int, hi as int),
            forall|j: int| lo <= j < i ==> is_digit(s@[j]) || s@[j] == '.',
            match dot {
                Some(d) => lo <= d < i && s@[d as int] == '.' && forall|j: int|
                    lo <= j < i && j != d ==> s@[j] != '.',
                None => forall|j: int| lo <= j < i ==> s@[j] != '.',
            },
            digit == exists|j: int| lo <= j < i && is_digit(s@[j]),
        decreases hi - i,
    {
        let c = s[i];
        if is_digit_char(c) {
            digit = true;
        } else if c == '.' {
            if let Some(d) = dot {
                assert(m[d - lo] == '.' && m[i - lo] == '.');
                return false;
            }
            dot = Some(i);
        } else {
            assert(!(is_digit(m[i - lo]) || m[i - lo] == '.'));
            return false;
        }
        proof {
            if digit {
                if is_digit(c) {
                    assert(is_digit(s@[i as int]));
                }
            } else {
                assert(!is_digit(c));
            }
        }
        i += 1;
    }
    proof {
        if digit {
            let j = choose|j: int| lo <= j < hi && is_digit(s@[j]);
            assert(is_digit(m[j - lo]));
        } else {
            assert forall|j: int| 0 <= j < m.len() implies !is_digit(m[j]) by {
                assert(m[j] == s@[lo + j]);
            }
        }
        assert forall|a: int, b: int| 0 <= a < b < m.len() implies !(m[a] == '.' && m[b]
            == '.') by {
            assert(m[a] == s@[lo + a] && m[b] == s@[lo + b]);
        }
    }
    digit
}

fn is_exponent_range(s: &Vec<char>, lo: usize, hi: usize) -> (r: bool)
    requires
        lo <= hi <= s.len(),
    ensures
        r == is_exponent(s@.subrange(lo as int, hi as int)),
{
    let ghost x = s@.subrange(lo as int, hi as int);
    let mut b = lo;
    if b < hi && (s[b] == '+' || s[b] == '-') {
        b += 1;
    }
    assert(unsigned_part(x) =~= s@.subrange(b as int, hi as int));
    if b == hi {
        assert(unsigned_part(x).len() == 0);
        return false;
    }
    let mut i = b;
    while i < hi
        invariant
            b <= i <= hi <= s.len(),
            x == s@.subrange(lo as int, hi as int),
            unsigned_part(x) == s@.subrange(b as int, hi as int),
            forall|j: int| b <= j < i ==> is_digit(s@[j]),
        decreases hi - i,
    {
        if !is_digit_char(s[i]) {
            assert(!is_digit(s@.subrange(b as int, hi as int)[i - b]));
            return false;
        }
        i += 1;
    }
    assert forall|j: int| 0 <= j < hi - b implies is_digit(s@.subrange(b as int, hi as int)[j]) by {
        assert(s@.subrange(b as int, hi as int)[j] == s@[b + j]);
    }
    true
}

/// Whether `t` is a floating-point literal that `f64::from_str` accepts.
pub fn is_float_token(t: &str) -> (r: bool)
    ensures
        r == is_float_text(t@),
{
    let s = chars_of(t);
    let n = s.len();
    let mut lo: usize = 0;
    if n > 0 && (s[0] == '+' || s[0] == '-') {
        lo = 1;
    }
    let ghost u = unsigned_part(t@);
    assert(u =~= s@.subrange(lo as int, n as int));
    proof {
        reveal_strlit("inf");
        reveal_strlit("infinity");
        reveal_strlit("nan");
        assert("inf"@ =~= seq!['i', 'n', 'f']);
        assert("infinity"@ =~= seq!['i', 'n', 'f', 'i', 'n', 'i', 't', 'y']);
        assert("nan"@ =~= seq!['n', 'a', 'n']);
    }
    if spells_range(&s, lo, n, "inf") || spells_range(&s, lo, n, "infinity") || spells_range(
        &s,
        lo,
        n,
        "nan",
    ) {
        return true;
    }
    let mut k = lo;
    while k < n && !(s[k] == 'e' || s[k] == 'E')
        invariant
            lo <= k <= n,
            n == s.len(),
            forall|j: int| lo <= j < k ==> !is_exp_mark(s@[j]),
        decreases n - k,
    {
        k += 1;
    }
    if k < n {
        let ghost kk = (k - lo) as int;
        assert(is_first_exp_at(u, kk));
        assert forall|k2: int| is_first_exp_at(u, k2) implies k2 == kk by {
            if k2 < kk {
                assert(!is_exp_mark(s@[lo + k2]));
            } else if k2 > kk {
                assert(!is_exp_mark(u[kk]));
            }
        }
        assert(u.take(kk) =~= s@.subrange(lo as int, k as int));
        assert(u.skip(kk + 1) =~= s@.subrange(k + 1, n as int));
        is_mantissa_range(&s, lo, k) && is_exponent_range(&s, k + 1, n)
    } else {
        assert forall|k2: int| !is_first_exp_at(u, k2) by {
            if 0 <= k2 < u.len() {
                assert(!is_exp_mark(s@[lo + k2]));
            }
        }
        is_mantissa_range(&s, lo, n)
    }
}

pub proof fn lemma_digits_value_nonneg(s: Seq<char>)
    requires
        all_digits(s),
    ensures
        digits_value(s) >= 0,
    decreases s.len(),
{
    if s.len() > 0 {
        lemma_digits_value_nonneg(s.drop_last());
        assert(is_digit(s[s.len() - 1]));
    }
}

pub proof fn lemma_pow10_positive(n: nat)
    ensures
        pow10(n) >= 1,
    decreases n,
{
    if n > 0 {
        lemma_pow10_positive((n - 1) as nat);
    }
}

pub proof fn lemma_pow10_large(n: nat)
    requires
        n >= 20,
    ensures
        pow10(n) > u64::MAX,
    decreases n,
{
    if n > 20 {
        lemma_pow10_large((n - 1) as nat);
    } else {
        reveal_with_fuel(pow10, 21);
    }
}

/// Once shifted by twenty places or more, any non-zero number exceeds `u64::MAX`.
pub proof fn lemma_big_shift(d: int, a: nat, b: nat)
    requires
        d >= 0,
        a >= 20,
        b >= 20,
    ensures
        capped(d * pow10(a), u64::MAX as int) == capped(d * pow10(b), u64::MAX as int),
{
    lemma_pow10_large(a);
    lemma_pow10_large(b);
    if d > 0 {
        assert(d * pow10(a) >= pow10(a)) by (nonlinear_arith)
            requires
                d >= 1,
                pow10(a) >= 1,
        ;
        assert(d * pow10(b) >= pow10(b)) by (nonlinear_arith)
            requires
                d >= 1,
                pow10(b) >= 1,
        ;
    }
}

/// The value of the digits `lo..hi` of `s`, or `cap` where it is larger.
fn capped_digits(s: &Vec<char>, lo: usize, hi: usize, cap: u128) -> (r: u128)
    requires
        lo <= hi <= s.len(),
        10 <= cap <= 0x1_0000_0000_0000_0000_0000_0000_0000u128,
        all_digits(s@.subrange(lo as int, hi as int)),
    ensures
        r == capped(digits_value(s@.subrange(lo as int, hi as int)), cap as int),
{
    let mut acc: u128 = 0;
    let mut i: usize = lo;
    assert(s@.subrange(lo as int, lo as int) =~= Seq::<char>::empty());
    while i < hi
        invariant
            lo <= i <= hi <= s.len(),
            10 <= cap <= 0x1_0000_0000_0000_0000_0000_0000_0000u128,
            all_digits(s@.subrange(lo as int, hi as int)),
            acc <= cap,
            acc == capped(digits_value(s@.subrange(lo as int, i as int)), cap as int),
        decreases hi - i,
    {
        let ghost prev = s@.subrange(lo as int, i as int);
        assert(s@.subrange(lo as int, i + 1).drop_last() =~= prev);
        assert(s@.subrange(lo as int, hi as int)[i - lo] == s@[i as int]);
        let d = (s[i] as u32 - 48) as u128;
        let ghost v = digits_value(prev);
        proof {
            assert(all_digits(prev)) by {
                assert forall|j: int| 0 <= j < prev.len() implies is_digit(prev[j]) by {
                    assert(prev[j] == s@.subrange(lo as int, hi as int)[j]);
                }
            }
            lemma_digits_value_nonneg(prev);
            assert(digits_value(s@.subrange(lo as int, i + 1)) == v * 10 + d);
        }
        if acc > (cap - d) / 10 {
            proof {
                if v <= cap {
                    assert(v * 10 + d > cap) by (nonlinear_arith)
                        requires
                            v > (cap - d) / 10,
                            d <= 9,
                            cap >= d,
                    ;
                } else {
                    assert(v * 10 + d > cap) by (nonlinear_arith)
                        requires
                            v > cap,
                            d >= 0,
                    ;
                }
            }
            acc = cap;
        } else {
            proof {
                assert(acc * 10 + d <= cap) by (nonlinear_arith)
                    requires
                        acc <= (cap - d) / 10,
                        d <= 9,
                ;
            }
            acc = acc * 10 + d;
        }
        i += 1;
    }
    acc
}

/// `d` times ten to the `shift`, or `u64::MAX` where that is larger.
fn scaled(d: u64, shift: u128) -> (r: u64)
    ensures
        r == capped(d * pow10(shift as nat), u64::MAX as int),
{
    let mut acc = d;
    let mut rem = shift;
    while rem > 0 && acc != 0 && acc != u64::MAX
        invariant
            capped(acc * pow10(rem as nat), u64::MAX as int) == capped(
                d * pow10(shift as nat),
                u64::MAX as int,
            ),
        decreases rem,
    {
        let ghost p = pow10((rem - 1) as nat);
        proof {
            lemma_pow10_positive((rem - 1) as nat);
            assert(pow10(rem as nat) == 10 * p);
        }
        if acc > u64::MAX / 10 {
            proof {
                assert(acc * (10 * p) >= acc * 10) by (nonlinear_arith)
                    requires
                        p >= 1,
                        acc >= 0,
                ;
                assert(u64::MAX * p >= u64::MAX) by (nonlinear_arith)
                    requires
                        p >= 1,
                ;
            }
            acc = u64::MAX;
        } else {
            proof {
                assert(acc * (10 * p) == (acc * 10) * p) by (nonlinear_arith);
            }
            acc = acc * 10;
        }
        rem -= 1;
    }
    proof {
        lemma_pow10_positive(rem as nat);
        if rem == 0 {
            assert(pow10(0) == 1);
        } else if acc == u64::MAX {
            assert(acc * pow10(rem as nat) >= u64::MAX) by (nonlinear_arith)
                requires
                    acc == u64::MAX,
                    pow10(rem as nat) >= 1,
            ;
        }
    }
    acc
}

pub const EXPONENT_CAP: u128 = 1267650600228229401496703205376;

/// The digits of the mantissa `lo..k` of `s` without its decimal point, and
/// how many of them follow the point.
fn mantissa_digits(s: &Vec<char>, lo: usize, k: usize) -> (r: (Vec<char>, usize))
    requires
        lo <= k <= s.len(),
        is_mantissa(s@.subrange(lo as int, k as int)),
    ensures
        ({
            let m = s@.subrange(lo as int, k as int);
            &&& r.0@ == whole_part(m) + frac_part(m)
            &&& r.1 == frac_part(m).len()
            &&& all_digits(r.0@)
        }),
{
    let ghost m = s@.subrange(lo as int, k as int);
    let mut d = lo;
    while d < k && s[d] != '.'
        invariant
            lo <= d <= k <= s.len(),
            forall|j: int| lo <= j < d ==> s@[j] != '.',
        decreases k - d,
    {
        d += 1;
    }
    let frac_start = if d < k {
        d + 1
    } else {
        k
    };
    proof {
        if d < k {
            let dd = (d - lo) as int;
            assert(crate::text::is_first_at(m, '.', 0, dd));
            assert forall|j: int| crate::text::is_first_at(m, '.', 0, j) implies j == dd by {
                if j < dd {
                    assert(m[j] == s@[lo + j]);
                } else if j > dd {
                    assert(m[dd] == '.');
                }
            }
            assert(whole_part(m) =~= s@.subrange(lo as int, d as int));
            assert(frac_part(m) =~= s@.subrange(d + 1, k as int));
        } else {
            assert forall|j: int| !crate::text::is_first_at(m, '.', 0, j) by {
                if 0 <= j < m.len() {
                    assert(m[j] == s@[lo + j]);
                }
            }
            assert(whole_part(m) =~= s@.subrange(lo as int, d as int));
            assert(frac_part(m) =~= s@.subrange(k as int, k as int));
        }
    }
    let mut all: Vec<char> = Vec::new();
    let mut i = lo;
    assert(all@ =~= s@.subrange(lo as int, lo as int));
    while i < d
        invariant
            lo <= i <= d <= k <= s.len(),
            all@ == s@.subrange(lo as int, i as int),
        decreases d - i,
    {
        all.push(s[i]);
        i += 1;
        assert(all@ =~= s@.subrange(lo as int, i as int));
    }
    let mut j = frac_start;
    assert(all@ =~= s@.subrange(lo as int, d as int) + s@.subrange(
        frac_start as int,
        frac_start as int,
    ));
    while j < k
        invariant
            lo <= d <= k <= s.len(),
            d < k ==> frac_start == d + 1,
            d == k ==> frac_start == k,
            frac_start <= j <= k,
            all@ == s@.subrange(lo as int, d as int) + s@.subrange(frac_start as int, j as int),
        decreases k - j,
    {
        all.push(s[j]);
        j += 1;
        assert(all@ =~= s@.subrange(lo as int, d as int) + s@.subrange(
            frac_start as int,
            j as int,
        ));
    }
    assert(all@ =~= whole_part(m) + frac_part(m));
    assert(all_digits(all@)) by {
        assert forall|q: int| 0 <= q < all@.len() implies is_digit(all@[q]) by {
            if q < d - lo {
                assert(all@[q] == m[q]);
                assert(m[q] == s@[lo + q]);
            } else {
                let mq = q + 1;
                assert(all@[q] == m[mq]);
                assert(m[d - lo] == '.');
                if m[mq] == '.' {
                    assert(!(m[d - lo] == '.' && m[mq] == '.'));
                }
            }
        }
    }
    (all, k - frac_start)
}

/// The sign of the exponent text `from..s.len()` of `s`, and its digits'
/// value, capped at `EXPONENT_CAP`.
fn exponent_parts(s: &Vec<char>, from: usize) -> (r: (bool, u128))
    requires
        from <= s.len(),
        is_exponent(s@.subrange(from as int, s.len() as int)),
    ensures
        ({
            let x = s@.subrange(from as int, s.len() as int);
            &&& r.0 == (x.len() > 0 && x[0] == '-')
            &&& r.1 == capped(digits_value(unsigned_part(x)), EXPONENT_CAP as int)
        }),
{
    let ghost x = s@.subrange(from as int, s.len() as int);
    let n = s.len();
    let mut xs = from;
    let mut eneg = false;
    if xs < n && (s[xs] == '+' || s[xs] == '-') {
        eneg = s[xs] == '-';
        xs = xs + 1;
    }
    assert(unsigned_part(x) =~= s@.subrange(xs as int, n as int));
    (eneg, capped_digits(s, xs, n, EXPONENT_CAP))
}

/// The integer part of `digits` (`p` of them after the point) times ten to
/// the exponent, capped at `u64::MAX`; the exponent comes as its sign and its
/// size capped at `EXPONENT_CAP`.
fn shifted_count(all: &Vec<char>, p: usize, eneg: bool, xv: u128, xd: Ghost<int>) -> (r: u64)
    requires
        all_digits(all@),
        xd@ >= 0,
        xv == capped(xd@, EXPONENT_CAP as int),
    ensures
        r == capped(
            shifted_value(
                all@,
                p as int,
                if eneg {
                    -xd@
                } else {
                    xd@
                },
            ),
            u64::MAX as int,
        ),
{
    let ghost e = if eneg {
        -xd@
    } else {
        xd@
    };
    let ghost true_shift = e - p;
    let ghost digits = all@;
    let exp: i128 = if eneg {
        -(xv as i128)
    } else {
        xv as i128
    };
    let shift: i128 = exp - p as i128;
    assert(all@.subrange(0, all.len() as int) =~= all@);
    proof {
        lemma_digits_value_nonneg(digits);
    }
    if shift >= 0 {
        let dv = capped_digits(all, 0, all.len(), u64::MAX as u128) as u64;
        let r = scaled(dv, shift as u128);
        proof {
            let dd = digits_value(digits);
            lemma_pow10_positive(shift as nat);
            if dd > u64::MAX {
                assert(u64::MAX * pow10(shift as nat) >= u64::MAX) by (nonlinear_arith)
                    requires
                        pow10(shift as nat) >= 1,
                ;
            }
            if xd@ > EXPONENT_CAP {
                lemma_big_shift(dd, shift as nat, true_shift as nat);
                lemma_big_shift(dv as int, shift as nat, 20);
                lemma_big_shift(dd, true_shift as nat, 20);
                if dd > u64::MAX {
                    lemma_pow10_positive(true_shift as nat);
                    assert(dd * pow10(true_shift as nat) >= dd) by (nonlinear_arith)
                        requires
                            pow10(true_shift as nat) >= 1,
                            dd >= 0,
                    ;
                }
            } else {
                assert(shift == true_shift);
                if dd > u64::MAX {
                    assert(dd * pow10(shift as nat) >= dd) by (nonlinear_arith)
                        requires
                            pow10(shift as nat) >= 1,
                            dd >= 0,
                    ;
                }
            }
        }
        r
    } else {
        let keep = all.len() as i128 + shift;
        proof {
            if xd@ <= EXPONENT_CAP {
                assert(shift == true_shift);
            }
        }
        if keep <= 0 {
            0
        } else {
            assert(all@.subrange(0, keep as int) =~= digits.take(digits.len() + true_shift));
            assert(all_digits(all@.subrange(0, keep as int)));
            let v = capped_digits(all, 0, keep as usize, u64::MAX as u128) as u64;
            v
        }
    }
}

/// Reads a count token as an `f64` value converted by `as u64` reads it.
pub fn parse_count(t: &str) -> (r: Option<u64>)
    ensures
        r == count_value(t@),
{
    if !is_float_token(t) {
        return None;
    }
    let s = chars_of(t);
    let n = s.len();
    let neg = n > 0 && s[0] == '-';
    let lo: usize = if n > 0 && (s[0] == '+' || s[0] == '-') {
        1
    } else {
        0
    };
    let ghost u = unsigned_part(t@);
    assert(u =~= s@.subrange(lo as int, n as int));
    proof {
        reveal_strlit("inf");
        reveal_strlit("infinity");
        reveal_strlit("nan");
        assert("inf"@ =~= seq!['i', 'n', 'f']);
        assert("infinity"@ =~= seq!['i', 'n', 'f', 'i', 'n', 'i', 't', 'y']);
        assert("nan"@ =~= seq!['n', 'a', 'n']);
    }
    if spells_range(&s, lo, n, "nan") || neg {
        return Some(0);
    }
    if spells_range(&s, lo, n, "inf") || spells_range(&s, lo, n, "infinity") {
        return Some(u64::MAX);
    }
    assert(is_number(u));
    let mut k = lo;
    while k < n && !(s[k] == 'e' || s[k] == 'E')
        invariant
            lo <= k <= n,
            n == s.len(),
            forall|j: int| lo <= j < k ==> !is_exp_mark(s@[j]),
        decreases n - k,
    {
        k += 1;
    }
    let ghost m = s@.subrange(lo as int, k as int);
    let ghost x = if k < n {
        s@.subrange(k + 1, n as int)
    } else {
        Seq::<char>::empty()
    };
    if k < n {
        let ghost kk = (k - lo) as int;
        assert(is_first_exp_at(u, kk));
        assert forall|k2: int| is_first_exp_at(u, k2) implies k2 == kk by {
            if k2 < kk {
                assert(!is_exp_mark(s@[lo + k2]));
            } else if k2 > kk {
                assert(!is_exp_mark(u[kk]));
            }
        }
        assert(u.take(kk) =~= m);
        assert(u.skip(kk + 1) =~= x);
    } else {
        assert forall|k2: int| !is_first_exp_at(u, k2) by {
            if 0 <= k2 < u.len() {
                assert(!is_exp_mark(s@[lo + k2]));
            }
        }
        assert(m =~= u);
    }
    assert(number_parts(u) == (m, x));
    let (all, p) = mantissa_digits(&s, lo, k);
    let (eneg, xv) = if k < n {
        exponent_parts(&s, k + 1)
    } else {
        assert(unsigned_part(x) =~= Seq::<char>::empty());
        (false, 0u128)
    };
    let ghost xd = digits_value(unsigned_part(x));
    proof {
        lemma_digits_value_nonneg(unsigned_part(x));
    }
    assert(truncated(u) == shifted_value(
        all@,
        p as int,
        if eneg {
            -xd
        } else {
            xd
        },
    ));
    Some(shifted_count(&all, p, eneg, xv, Ghost(xd)))
}

} // verus!
