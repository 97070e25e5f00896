//! Price text, a decimal with an optional fractional part, and its scaling
//! to a whole number of millionths.
use vstd::prelude::*;
use crate::decimal::{all_digits, digit_value, digits_value, is_digit, lemma_prefix_value_le};

verus! {

/// Index of the first `.` in `s`, or `s.len()` when there is none.
pub open spec fn dot_index(s: Seq<u8>) -> nat
    decreases s.len(),
{
    if s.len() == 0 {
        0
    } else if s[0] == 46 {
        0
    } else {
        1 + dot_index(s.drop_first())
    }
}

/// The digits before the decimal point.
pub open spec fn int_part(s: Seq<u8>) -> Seq<u8> {
    s.take(dot_index(s) as int)
}

/// The digits after the decimal point; empty when there is no point.
pub open spec fn frac_part(s: Seq<u8>) -> Seq<u8> {
    if dot_index(s) < s.len() {
        s.skip(dot_index(s) as int + 1)
    } else {
        Seq::empty()
    }
}

/// Price text: digits, optionally a `.` and more digits, with at least one
/// digit in all (`"0.905"`, `"12"`, `"3."`, `".5"`).
pub open spec fn is_price_text(s: Seq<u8>) -> bool {
    &&& all_digits(int_part(s))
    &&& all_digits(frac_part(s))
    &&& int_part(s).len() + frac_part(s).len() > 0
}

/// The `i`-th fractional digit, zero past the end of the text.
pub open spec fn frac_digit(f: Seq<u8>, i: int) -> nat {
    if 0 <= i < f.len() {
        digit_value(f[i])
    } else {
        0
    }
}

/// The first `n` fractional digits read as an integer (zeros past the end).
pub open spec fn frac_units(f: Seq<u8>, n: nat) -> nat
    decreases n,
{
    if n == 0 {
        0
    } else {
        frac_units(f, (n - 1) as nat) * 10 + frac_digit(f, n - 1)
    }
}

/// Number of fractional digits that a scaled price keeps.
pub const SCALE_DIGITS: usize = 6;

/// The factor between a price and its scaled integer.
pub const SCALE: u64 = 1_000_000;

/// The price that `s` denotes in millionths, rounded to the nearest
/// millionth; a half rounds up (away from zero, as prices are not negative).
pub open spec fn scaled_price(s: Seq<u8>) -> nat {
    let f = frac_part(s);
    digits_value(int_part(s)) * 1_000_000 + frac_units(f, 6) + if frac_digit(f, 6) >= 5 {
        1nat
    } else {
        0nat
    }
}

/// `frac_units` reads only the first `n` digits, so two fractions that agree
/// digit by digit agree on it.
proof fn lemma_frac_units_same(f: Seq<u8>, g: Seq<u8>, n: nat)
    requires
        forall|i: int| 0 <= i < n ==> frac_digit(f, i) == frac_digit(g, i),
    ensures
        frac_units(f, n) == frac_units(g, n),
    decreases n,
{
    if n > 0 {
        lemma_frac_units_same(f, g, (n - 1) as nat);
    }
}

proof fn lemma_frac_units_bound(f: Seq<u8>, n: nat)
    requires
        all_digits(f),
    ensures
        frac_units(f, n) < pow10(n),
    decreases n,
{
    if n > 0 {
        lemma_frac_units_bound(f, (n - 1) as nat);
        if 0 <= n - 1 < f.len() {
            assert(is_digit(f[n - 1]));
        }
    }
}

/// Ten to the power `n`.
pub open spec fn pow10(n: nat) -> nat
    decreases n,
{
    if n == 0 {
        1
    } else {
        10 * pow10((n - 1) as nat)
    }
}

proof fn lemma_pow10_le(a: nat, b: nat)
    requires
        a <= b,
    ensures
        pow10(a) <= pow10(b),
    decreases b,
{
    if a < b {
        lemma_pow10_le(a, (b - 1) as nat);
    }
}

/// The digits of the price without its point: the price is this number
/// divided by ten to the number of fractional digits.
pub open spec fn price_numerator(s: Seq<u8>) -> nat {
    digits_value(int_part(s) + frac_part(s))
}

/// `num / 10^k` in millionths, rounded to the nearest integer with halves
/// rounded up: `floor(num * 10^6 / 10^k + 1/2)`.
pub open spec fn rounded_millionths(num: nat, k: nat) -> nat {
    (2 * num * 1_000_000 + pow10(k)) / (2 * pow10(k))
}

proof fn lemma_pow10_pos(n: nat)
    ensures
        pow10(n) > 0,
    decreases n,
{
    if n > 0 {
        lemma_pow10_pos((n - 1) as nat);
    }
}

proof fn lemma_pow10_add(a: nat, b: nat)
    ensures
        pow10(a + b) == pow10(a) * pow10(b),
    decreases b,
{
    if b > 0 {
        lemma_pow10_add(a, (b - 1) as nat);
        let x = pow10(a);
        let y = pow10((b - 1) as nat);
        assert(pow10(b) == 10 * y);
        assert((a + (b - 1)) as nat == (a + b - 1) as nat);
        assert(pow10((a + b) as nat) == 10 * pow10((a + (b - 1)) as nat));
        assert(10 * (x * y) == x * (10 * y)) by (nonlinear_arith);
        assert(pow10((a + b) as nat) == x * pow10(b));
    } else {
        assert(pow10(b) == 1);
        assert(pow10(a) * 1 == pow10(a));
    }
}

proof fn lemma_digits_concat(a: Seq<u8>, b: Seq<u8>)
    ensures
        digits_value(a + b) == digits_value(a) * pow10(b.len()) + digits_value(b),
    decreases b.len(),
{
    if b.len() == 0 {
        assert(a + b =~= a);
        assert(pow10(b.len()) == 1);
        assert(digits_value(b) == 0);
        assert(digits_value(a) * 1 == digits_value(a));
    } else {
        assert((a + b).drop_last() =~= a + b.drop_last());
        lemma_digits_concat(a, b.drop_last());
        let x = digits_value(a);
        let y = pow10((b.len() - 1) as nat);
        let z = digits_value(b.drop_last());
        let w = digit_value(b.last());
        assert((a + b).last() == b.last());
        assert(digits_value(a + b) == digits_value((a + b).drop_last()) * 10 + w);
        assert(digits_value(b) == z * 10 + w);
        assert(pow10(b.len()) == 10 * y);
        assert((x * y + z) * 10 + w == x * (10 * y) + (z * 10 + w)) by (nonlinear_arith);
        assert(digits_value(a + b) == x * pow10(b.len()) + digits_value(b));
    }
}

proof fn lemma_digits_bound(s: Seq<u8>)
    requires
        all_digits(s),
    ensures
        digits_value(s) < pow10(s.len()),
    decreases s.len(),
{
    if s.len() > 0 {
        lemma_digits_bound(s.drop_last());
        assert(is_digit(s[s.len() - 1]));
    }
}

proof fn lemma_frac_units_prefix(f: Seq<u8>, n: nat)
    requires
        n <= f.len(),
    ensures
        frac_units(f, n) == digits_value(f.take(n as int)),
    decreases n,
{
    if n > 0 {
        lemma_frac_units_prefix(f, (n - 1) as nat);
        assert(f.take(n as int).drop_last() =~= f.take(n - 1));
    } else {
        assert(f.take(0) =~= Seq::<u8>::empty());
    }
}

proof fn lemma_frac_units_pad(f: Seq<u8>, n: nat)
    requires
        n >= f.len(),
    ensures
        frac_units(f, n) == digits_value(f) * pow10((n - f.len()) as nat),
    decreases n,
{
    if n == f.len() {
        lemma_frac_units_prefix(f, n);
        assert(f.take(n as int) =~= f);
        assert(pow10(0) == 1);
        assert(digits_value(f) * 1 == digits_value(f));
    } else {
        lemma_frac_units_pad(f, (n - 1) as nat);
        let x = digits_value(f);
        let y = pow10((n - 1 - f.len()) as nat);
        assert(pow10((n - f.len()) as nat) == 10 * y);
        assert((x * y) * 10 == x * (10 * y)) by (nonlinear_arith);
        assert(frac_digit(f, n - 1) == 0);
        assert(frac_units(f, n) == frac_units(f, (n - 1) as nat) * 10);
    }
}

/// The scaled price is the price rounded to the nearest millionth, halves up:
/// the exact value of the decimal text, not an approximation of it.
pub proof fn lemma_scaled_price_rounds(s: Seq<u8>)
    requires
        is_price_text(s),
    ensures
        scaled_price(s) == rounded_millionths(price_numerator(s), frac_part(s).len()),
{
    let i = int_part(s);
    let f = frac_part(s);
    let k = f.len();
    let iv = digits_value(i);
    let p = pow10(k);
    lemma_digits_concat(i, f);
    lemma_pow10_pos(k);
    assert(pow10(6) == 1_000_000) by {
        reveal_with_fuel(pow10, 7);
    }
    let num = price_numerator(s);
    assert(num == iv * p + digits_value(f));
    if k <= 6 {
        let q = pow10((6 - k) as nat);
        lemma_frac_units_pad(f, 6);
        lemma_pow10_add(k, (6 - k) as nat);
        assert(p * q == 1_000_000);
        assert(frac_digit(f, 6) == 0);
        let fv = digits_value(f);
        let x = iv * 1_000_000 + fv * q;
        assert(scaled_price(s) == x);
        assert(2 * num * 1_000_000 + p == x * (2 * p) + p) by (nonlinear_arith)
            requires
                num == iv * p + fv,
                p * q == 1_000_000,
                x == iv * 1_000_000 + fv * q,
        ;
        vstd::arithmetic::div_mod::lemma_fundamental_div_mod_converse(
            (2 * num * 1_000_000 + p) as int,
            (2 * p) as int,
            x as int,
            p as int,
        );
    } else {
        let a = f.take(6);
        let b = f.skip(6);
        assert(f =~= a + b);
        lemma_digits_concat(a, b);
        lemma_frac_units_prefix(f, 6);
        let u = digits_value(a);
        let m = pow10((k - 6) as nat);
        let r = digits_value(b);
        assert(digits_value(f) == u * m + r);
        lemma_pow10_add(6, (k - 6) as nat);
        assert(p == 1_000_000 * m);
        // The first dropped digit decides the rounding.
        let d = seq![b[0]];
        let rest = b.skip(1);
        assert(b =~= d + rest);
        lemma_digits_concat(d, rest);
        assert(d.drop_last() =~= Seq::<u8>::empty());
        assert(digits_value(d.drop_last()) == 0);
        assert(digits_value(d) == digit_value(b[0]));
        assert(is_digit(f[6]));
        assert(b[0] == f[6]);
        let dv = digit_value(b[0]);
        assert(dv <= 9);
        let m1 = pow10((k - 7) as nat);
        assert(m == 10 * m1);
        assert(all_digits(rest));
        lemma_digits_bound(rest);
        let rr = digits_value(rest);
        assert(r == dv * m1 + rr);
        assert(frac_digit(f, 6) == dv);
        let up: nat = if dv >= 5 { 1 } else { 0 };
        assert(all_digits(b));
        lemma_digits_bound(b);
        assert(r < m);
        if dv >= 5 {
            assert(dv * m1 >= 5 * m1) by (nonlinear_arith)
                requires
                    dv >= 5,
            ;
        } else {
            assert(dv * m1 <= 4 * m1) by (nonlinear_arith)
                requires
                    dv <= 4,
            ;
        }
        assert(2 * m * up <= 2 * r + m < 2 * m * up + 2 * m);
        let x = iv * 1_000_000 + u + up;
        assert(scaled_price(s) == x);
        let rem: nat = ((2 * r + m) - 2 * m * up) as nat;
        assert(2 * num * 1_000_000 + p == x * (2 * p) + 1_000_000 * rem) by (nonlinear_arith)
            requires
                num == iv * p + u * m + r,
                p == 1_000_000 * m,
                x == iv * 1_000_000 + u + up,
                rem == (2 * r + m) - 2 * m * up,
                2 * m * up <= 2 * r + m,
        ;
        assert(1_000_000 * rem < 2 * p) by (nonlinear_arith)
            requires
                rem < 2 * m,
                p == 1_000_000 * m,
        ;
        vstd::arithmetic::div_mod::lemma_fundamental_div_mod_converse(
            (2 * num * 1_000_000 + p) as int,
            (2 * p) as int,
            x as int,
            (1_000_000 * rem) as int,
        );
    }
}

/// A point already in the text stays the first one when a byte is appended.
proof fn lemma_dot_index_push(s: Seq<u8>, b: u8)
    requires
        dot_index(s) < s.len(),
    ensures
        dot_index(s.push(b)) == dot_index(s),
    decreases s.len(),
{
    if s[0] != 46 {
        assert(s.push(b).drop_first() =~= s.drop_first().push(b));
        lemma_dot_index_push(s.drop_first(), b);
    }
}

/// A trailing zero after the decimal point changes neither whether the text is
/// price text nor the scaled price: `"0.90"` and `"0.900"` scale alike.
pub proof fn lemma_trailing_zero(s: Seq<u8>)
    requires
        is_price_text(s),
        dot_index(s) < s.len(),
    ensures
        is_price_text(s.push(48)),
        scaled_price(s.push(48)) == scaled_price(s),
{
    let t = s.push(48);
    lemma_dot_index_push(s, 48);
    assert(int_part(t) =~= int_part(s));
    assert(frac_part(t) =~= frac_part(s).push(48));
    let f = frac_part(s);
    let g = frac_part(t);
    assert forall|i: int| 0 <= i < 7 implies frac_digit(g, i) == frac_digit(f, i) by {
        if i < f.len() {
            assert(g[i] == f[i]);
        }
    }
    lemma_frac_units_same(g, f, 6);
    assert(frac_digit(g, 6) == frac_digit(f, 6));
}

/// Index of the first `.` in `text`, or its length when there is none.
fn find_dot(text: &[u8]) -> (r: usize)
    ensures
        r == dot_index(text@),
        r <= text@.len(),
{
    let ghost s = text@;
    let len = text.len();
    let mut dot: usize = 0;
    assert(s.skip(0) =~= s);
    while dot < len && text[dot] != 46
        invariant
            0 <= dot <= len,
            len == s.len(),
            s == text@,
            dot_index(s) == dot + dot_index(s.skip(dot as int)),
        decreases len - dot,
    {
        assert(s.skip(dot as int).drop_first() =~= s.skip(dot + 1));
        dot = dot + 1;
    }
    assert(dot_index(s.skip(dot as int)) == 0);
    dot
}

/// Scales price text to millionths (see `scaled_price`). `None` when the text
/// is not price text or the scaled price does not fit in a `u64`.
pub fn scale_price(text: &[u8]) -> (r: Option<u64>)
    ensures
        r == (if is_price_text(text@) && scaled_price(text@) <= u64::MAX {
            Some(scaled_price(text@) as u64)
        } else {
            None::<u64>
        }),
{
    let ghost s = text@;
    let len = text.len();
    let dot = find_dot(text);
    assert(dot_index(s) == dot);
    let ghost ip = int_part(s);
    let ghost f = frac_part(s);
    // Integer part.
    let mut whole: u64 = 0;
    let mut i: usize = 0;
    while i < dot
        invariant
            0 <= i <= dot <= len,
            len == s.len(),
            s == text@,
            dot == dot_index(s),
            ip == s.take(dot as int),
            all_digits(ip.take(i as int)),
            whole == digits_value(ip.take(i as int)),
        decreases dot - i,
    {
        let b = text[i];
        if b < 48 || b > 57 {
            assert(!is_digit(ip[i as int]));
            return None;
        }
        assert(ip.take(i + 1).drop_last() =~= ip.take(i as int));
        proof {
            lemma_prefix_value_le(ip, i + 1);
        }
        match whole.checked_mul(10) {
            None => return None,
            Some(m) => match m.checked_add((b - 48) as u64) {
                None => return None,
                Some(v) => {
                    whole = v;
                },
            },
        }
        i = i + 1;
    }
    assert(ip.take(i as int) =~= ip);
    // Fractional part: every byte a digit.
    let start: usize = if dot < len { dot + 1 } else { len };
    assert(f =~= s.skip(start as int));
    let mut j: usize = start;
    while j < len
        invariant
            start <= j <= len,
            len == s.len(),
            s == text@,
            f == s.skip(start as int),
            f == frac_part(s),
            forall|k: int| 0 <= k < j - start ==> is_digit(#[trigger] f[k]),
        decreases len - j,
    {
        let b = text[j];
        if b < 48 || b > 57 {
            assert(f[j - start] == b);
            assert(!is_digit(f[j - start]));
            return None;
        }
        j = j + 1;
    }
    assert(all_digits(f));
    assert(ip.len() == dot);
    assert(f.len() == len - start);
    if dot == 0 && start == len {
        return None;
    }
    assert(pow10(6) == 1_000_000) by {
        reveal_with_fuel(pow10, 7);
    }
    // The kept fractional digits and the one that decides the rounding.
    let mut units: u64 = 0;
    let mut k: usize = 0;
    while k < SCALE_DIGITS
        invariant
            0 <= k <= SCALE_DIGITS,
            start <= len,
            len == s.len(),
            s == text@,
            f == s.skip(start as int),
            f == frac_part(s),
            all_digits(f),
            ip == int_part(s),
            whole == digits_value(ip),
            units == frac_units(f, k as nat),
            units < pow10(k as nat),
            pow10(6) == 1_000_000,
        decreases SCALE_DIGITS - k,
    {
        let d: u64 = if k < len - start {
            assert(is_digit(f[k as int]));
            (text[start + k] - 48) as u64
        } else {
            0
        };
        assert(d == frac_digit(f, k as int));
        proof {
            lemma_frac_units_bound(f, (k + 1) as nat);
            lemma_pow10_le((k + 1) as nat, 6);
            assert(pow10((k + 1) as nat) == 10 * pow10(k as nat));
        }
        assert(d <= 9);
        units = units * 10 + d;
        k = k + 1;
    }
    let up: u64 = if SCALE_DIGITS < len - start && text[start + SCALE_DIGITS] >= 53 {
        1
    } else {
        0
    };
    assert(up == (if frac_digit(f, 6) >= 5 { 1nat } else { 0nat }));
    match whole.checked_mul(SCALE) {
        None => None,
        Some(m) => match m.checked_add(units + up) {
            None => None,
            Some(v) => Some(v),
        },
    }
}

} // verus!
