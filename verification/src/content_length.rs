use vstd::prelude::*;
use vstd::arithmetic::div_mod::{lemma_fundamental_div_mod, lemma_mod_division_less_than_divisor};

verus! {

/// Whether the byte is an ASCII decimal digit.
pub open spec fn is_ascii_digit(b: u8) -> bool {
    48 <= b <= 57
}

/// One or more bytes, every one an ASCII decimal digit.
pub open spec fn is_digit_string(s: Seq<u8>) -> bool {
    s.len() > 0 && forall|i: int| 0 <= i < s.len() ==> is_ascii_digit(#[trigger] s[i])
}

/// The numeric value of a sequence of ASCII decimal digits.
pub open spec fn digits_value(s: Seq<u8>) -> int
    decreases s.len(),
{
    if s.len() == 0 {
        0
    } else {
        digits_value(s.drop_last()) * 10 + (s.last() - 48)
    }
}

/// The value of a digit string is never negative.
proof fn lemma_digits_value_nonneg(s: Seq<u8>)
    requires
        forall|i: int| 0 <= i < s.len() ==> is_ascii_digit(#[trigger] s[i]),
    ensures
        digits_value(s) >= 0,
    decreases s.len(),
{
    if s.len() > 0 {
        assert(forall|i: int|
            0 <= i < s.len() - 1 ==> is_ascii_digit(#[trigger] s.drop_last()[i]));
        lemma_digits_value_nonneg(s.drop_last());
    }
}

/// Extending a digit string on the right never lowers its value.
proof fn lemma_digits_value_mono(s: Seq<u8>, m: int)
    requires
        0 <= m <= s.len(),
        forall|i: int| 0 <= i < s.len() ==> is_ascii_digit(#[trigger] s[i]),
    ensures
        digits_value(s.take(m)) <= digits_value(s),
    decreases s.len() - m,
{
    if m == s.len() {
        assert(s.take(m) =~= s);
    } else {
        lemma_digits_value_mono(s, m + 1);
        assert(s.take(m + 1).drop_last() =~= s.take(m));
        assert(s.take(m + 1).last() == s[m]);
        assert(forall|i: int| 0 <= i < m ==> is_ascii_digit(#[trigger] s.take(m)[i]));
        lemma_digits_value_nonneg(s.take(m));
    }
}

/// Parse the decimal size out of the bytes of a content-length header value.
/// The size is returned exactly when the bytes are one or more ASCII decimal
/// digits whose value fits an unsigned 64-bit integer; anything else is a
/// missing size.
pub fn parse_content_length(s: &Vec<u8>) -> (r: Option<u64>)
    ensures
        r matches Some(v) ==> is_digit_string(s@) && digits_value(s@) == v as int,
        r is None ==> !(is_digit_string(s@) && digits_value(s@) <= u64::MAX),
{
    let n = s.len();
    if n == 0 {
        return None;
    }
    let mut acc: u64 = 0;
    for i in 0..n
        invariant
            n == s@.len(),
            n > 0,
            forall|j: int| 0 <= j < i ==> is_ascii_digit(#[trigger] s@[j]),
            acc as int == digits_value(s@.take(i as int)),
    {
        let b = s[i];
        if b < 48 || b > 57 {
            return None;
        }
        let d = (b - 48) as u64;
        if acc > (u64::MAX - d) / 10 {
            proof {
                lemma_fundamental_div_mod(u64::MAX - d, 10);
                lemma_mod_division_less_than_divisor(u64::MAX - d, 10);
                assert(s@.take(i as int + 1).drop_last() =~= s@.take(i as int));
                assert(s@.take(i as int + 1).last() == s@[i as int]);
                assert(digits_value(s@.take(i as int + 1)) > u64::MAX);
                if is_digit_string(s@) {
                    lemma_digits_value_mono(s@, i as int + 1);
                }
            }
            return None;
        }
        proof {
            lemma_fundamental_div_mod(u64::MAX - d, 10);
            lemma_mod_division_less_than_divisor(u64::MAX - d, 10);
            assert(acc as int * 10 + d <= u64::MAX);
            assert(s@.take(i as int + 1).drop_last() =~= s@.take(i as int));
            assert(s@.take(i as int + 1).last() == s@[i as int]);
        }
        acc = acc * 10 + d;
    }
    proof {
        assert(s@.take(n as int) =~= s@);
    }
    Some(acc)
}

} // verus!
