//! Decimal text of unsigned integers.
use vstd::prelude::*;

verus! {

/// An ASCII decimal digit.
pub open spec fn is_digit(b: u8) -> bool {
    48 <= b && b <= 57
}

/// The value of an ASCII decimal digit.
pub open spec fn digit_value(b: u8) -> nat {
    (b - 48) as nat
}

/// Every byte is an ASCII decimal digit.
pub open spec fn all_digits(s: Seq<u8>) -> bool {
    forall|i: int| 0 <= i < s.len() ==> is_digit(#[trigger] s[i])
}

/// The number that a string of decimal digits denotes, most significant first.
pub open spec fn digits_value(s: Seq<u8>) -> nat
    decreases s.len(),
{
    if s.len() == 0 {
        0
    } else {
        digits_value(s.drop_last()) * 10 + digit_value(s.last())
    }
}

/// Text of an unsigned integer: one or more decimal digits, nothing else.
pub open spec fn is_unsigned_text(s: Seq<u8>) -> bool {
    s.len() > 0 && all_digits(s)
}

/// The shortest decimal text of `n`.
pub open spec fn text_of(n: nat) -> Seq<u8>
    decreases n,
{
    if n < 10 {
        seq![(48 + n) as u8]
    } else {
        text_of(n / 10).push((48 + n % 10) as u8)
    }
}

/// A prefix of a digit string never denotes more than the whole string.
pub proof fn lemma_prefix_value_le(s: Seq<u8>, j: int)
    requires
        0 <= j <= s.len(),
    ensures
        digits_value(s.take(j)) <= digits_value(s),
    decreases s.len(),
{
    if j == s.len() {
        assert(s.take(j) =~= s);
    } else {
        assert(s.take(j) =~= s.drop_last().take(j));
        lemma_prefix_value_le(s.drop_last(), j);
    }
}

/// Writing a number as text and reading it back gives the number: the text
/// is unsigned integer text that denotes it.
pub proof fn lemma_text_of_denotes(n: nat)
    ensures
        is_unsigned_text(text_of(n)),
        digits_value(text_of(n)) == n,
    decreases n,
{
    if n < 10 {
        let t = text_of(n);
        assert(t.drop_last() =~= Seq::<u8>::empty());
        assert(digits_value(t.drop_last()) == 0);
        assert(digit_value(t.last()) == n);
    } else {
        lemma_text_of_denotes(n / 10);
        let t = text_of(n);
        assert(t.drop_last() =~= text_of(n / 10));
        assert(digit_value(t.last()) == n % 10);
        assert(n == (n / 10) * 10 + n % 10);
    }
}

/// Reads unsigned integer text. `None` when the text is empty, holds a byte
/// that is not a digit, or denotes a number above `u128::MAX`.
pub fn parse_unsigned(text: &[u8]) -> (r: Option<u128>)
    ensures
        r == (if is_unsigned_text(text@) && digits_value(text@) <= u128::MAX {
            Some(digits_value(text@) as u128)
        } else {
            None::<u128>
        }),
{
    if text.len() == 0 {
        return None;
    }
    let mut acc: u128 = 0;
    let mut i: usize = 0;
    while i < text.len()
        invariant
            0 <= i <= text.len(),
            all_digits(text@.take(i as int)),
            acc == digits_value(text@.take(i as int)),
        decreases text.len() - i,
    {
        let b = text[i];
        if b < 48 || b > 57 {
            return None;
        }
        let d = (b - 48) as u128;
        assert(text@.take(i + 1).drop_last() =~= text@.take(i as int));
        proof {
            lemma_prefix_value_le(text@, i + 1);
        }
        match acc.checked_mul(10) {
            None => return None,
            Some(m) => match m.checked_add(d) {
                None => return None,
                Some(v) => {
                    acc = v;
                },
            },
        }
        i = i + 1;
    }
    assert(text@.take(i as int) =~= text@);
    Some(acc)
}

/// The shortest decimal text of `n`: no sign, no leading zeros.
pub fn decimal_text(n: u128) -> (r: Vec<u8>)
    ensures
        r@ == text_of(n as nat),
    decreases n,
{
    if n < 10 {
        let mut v: Vec<u8> = Vec::new();
        v.push((48 + n) as u8);
        v
    } else {
        let mut v = decimal_text(n / 10);
        v.push((48 + n % 10) as u8);
        v
    }
}

} // verus!
