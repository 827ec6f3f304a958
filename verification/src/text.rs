//! Text as bytes: every notation of this library is written in ASCII.

use vstd::prelude::*;
use vstd::string::StringSliceAdditionalSpecFns;

verus! {

/// The characters that the bytes of an ASCII text stand for.
pub open spec fn chars_of(bytes: Seq<u8>) -> Seq<char> {
    Seq::new(bytes.len(), |i: int| bytes[i] as char)
}

/// Whether every byte of a text is the code of an ASCII character.
pub open spec fn is_ascii_text(t: Seq<u8>) -> bool {
    forall|i: int| 0 <= i < t.len() ==> #[trigger] t[i] < 128
}

/// A string whose characters are the bytes of an ASCII text has those bytes.
pub proof fn lemma_string_bytes(s: &str, t: Seq<u8>)
    requires
        s@ == chars_of(t),
        is_ascii_text(t),
    ensures
        s.spec_bytes() == t,
{
    vstd::string::is_ascii_spec_bytes(s);
    assert forall|i: int| 0 <= i < s@.len() implies '\0' <= #[trigger] s@[i] <= '\u{7f}' by {
        assert(t[i] < 128);
    }
    assert(vstd::string::is_ascii(s));
    assert(s.spec_bytes() =~= t);
}

/// Appends one character to a string.
///
/// This is `String::push` of the standard library: the string afterwards holds the
/// characters it held, followed by `c`.
#[verifier::external_body]
fn push_char(s: &mut String, c: char)
    ensures
        final(s)@ == old(s)@.push(c),
{
    s.push(c)
}

/// The string whose characters are the given bytes.
pub fn string_of(bytes: &Vec<u8>) -> (s: String)
    ensures
        s@ == chars_of(bytes@),
{
    let mut s = String::new();
    let mut i: usize = 0;
    while i < bytes.len()
        invariant
            0 <= i <= bytes.len(),
            s@ == chars_of(bytes@.subrange(0, i as int)),
        decreases bytes.len() - i,
    {
        let b: u8 = bytes[i];
        push_char(&mut s, b as char);
        assert(s@ =~= chars_of(bytes@.subrange(0, i + 1)));
        i = i + 1;
    }
    assert(bytes@.subrange(0, i as int) =~= bytes@);
    s
}

/// The decimal digits of `n`, without leading zeros; `0` is one digit.
pub open spec fn decimal(n: nat) -> Seq<u8>
    decreases n,
{
    if n < 10 {
        seq![(48 + n) as u8]
    } else {
        decimal(n / 10).push((48 + n % 10) as u8)
    }
}

/// Whether every byte is a decimal digit.
pub open spec fn all_digits(t: Seq<u8>) -> bool {
    forall|i: int| 0 <= i < t.len() ==> 48 <= #[trigger] t[i] <= 57
}

/// The number that a text of decimal digits names.
pub open spec fn digits_value(t: Seq<u8>) -> nat
    decreases t.len(),
{
    if t.len() == 0 {
        0
    } else {
        digits_value(t.drop_last()) * 10 + (t.last() - 48) as nat
    }
}

/// The number that a text names: one decimal digit or more, after an optional plus sign,
/// with a value that fits 32 bits. Nothing otherwise.
pub open spec fn parse_u32_spec(t: Seq<u8>) -> Option<u32> {
    let digits = if t.len() > 0 && t[0] == 43 {
        t.subrange(1, t.len() as int)
    } else {
        t
    };
    if digits.len() > 0 && all_digits(digits) && digits_value(digits) <= u32::MAX {
        Some(digits_value(digits) as u32)
    } else {
        None
    }
}

/// A text of digits with more digits names no smaller number.
pub proof fn lemma_digits_value_prefix(t: Seq<u8>, i: int)
    requires
        all_digits(t),
        0 <= i <= t.len(),
    ensures
        digits_value(t.subrange(0, i)) <= digits_value(t),
    decreases t.len() - i,
{
    if i < t.len() {
        lemma_digits_value_prefix(t, i + 1);
        let longer = t.subrange(0, i + 1);
        assert(longer.drop_last() =~= t.subrange(0, i));
        assert(48 <= t[i] <= 57);
        assert(longer.last() == t[i]);
    } else {
        assert(t.subrange(0, i) =~= t);
    }
}

/// Reads a number from its decimal digits.
pub fn parse_u32(t: &[u8]) -> (r: Option<u32>)
    ensures
        r == parse_u32_spec(t@),
{
    let start: usize = if t.len() > 0 && t[0] == 43 {
        1
    } else {
        0
    };
    let ghost digits = t@.subrange(start as int, t.len() as int);
    assert(digits =~= if t@.len() > 0 && t@[0] == 43 {
        t@.subrange(1, t@.len() as int)
    } else {
        t@
    });
    if start == t.len() {
        return None;
    }
    let mut value: u32 = 0;
    let mut i: usize = start;
    while i < t.len()
        invariant
            start <= i <= t.len(),
            start < t.len(),
            digits == t@.subrange(start as int, t.len() as int),
            digits == if t@.len() > 0 && t@[0] == 43 {
                t@.subrange(1, t@.len() as int)
            } else {
                t@
            },
            all_digits(digits.subrange(0, i - start)),
            value == digits_value(digits.subrange(0, i - start)),
        decreases t.len() - i,
    {
        let b: u8 = t[i];
        let ghost shorter = digits.subrange(0, i - start);
        let ghost longer = digits.subrange(0, i - start + 1);
        proof {
            assert(longer.drop_last() =~= shorter);
            assert(longer.last() == b);
        }
        if b < 48 || b > 57 {
            proof {
                assert(digits[i - start] == b);
            }
            return None;
        }
        let d: u32 = (b - 48) as u32;
        if value > (u32::MAX - d) / 10 {
            proof {
                if all_digits(digits) {
                    assert(digits_value(longer) == value * 10 + d);
                    assert(digits_value(longer) > u32::MAX);
                    lemma_digits_value_prefix(digits, i - start + 1);
                }
            }
            return None;
        }
        value = value * 10 + d;
        proof {
            assert forall|j: int| 0 <= j < longer.len() implies 48 <= #[trigger] longer[j] <= 57 by {
                if j < shorter.len() {
                    assert(shorter[j] == longer[j]);
                }
            }
        }
        i = i + 1;
    }
    proof {
        assert(digits.subrange(0, i - start) =~= digits);
    }
    Some(value)
}

/// Appends the decimal digits of `n` to `out`.
pub fn write_u32(n: u32, out: &mut Vec<u8>)
    ensures
        final(out)@ == old(out)@ + decimal(n as nat),
    decreases n,
{
    if n < 10 {
        out.push(48 + n as u8);
        assert(out@ =~= old(out)@ + decimal(n as nat));
    } else {
        write_u32(n / 10, out);
        out.push(48 + (n % 10) as u8);
        assert(out@ =~= old(out)@ + decimal(n as nat));
    }
}

/// The digits of a number are digits, at least one, and name the number.
pub proof fn lemma_decimal_round_trip(n: nat)
    ensures
        decimal(n).len() > 0,
        all_digits(decimal(n)),
        digits_value(decimal(n)) == n,
        decimal(n)[0] != 43,
        forall|i: int| 0 <= i < decimal(n).len() ==> decimal(n)[i] != 32,
        is_ascii_text(decimal(n)),
    decreases n,
{
    if n < 10 {
        let t = decimal(n);
        assert(t.drop_last() =~= Seq::<u8>::empty());
        assert(digits_value(t.drop_last()) == 0);
    } else {
        lemma_decimal_round_trip(n / 10);
        let t = decimal(n);
        assert(t.drop_last() =~= decimal(n / 10));
        assert(t[0] == decimal(n / 10)[0]);
    }
}

/// Writing a number and reading the digits back gives the number.
pub proof fn lemma_parse_decimal(n: u32)
    ensures
        parse_u32_spec(decimal(n as nat)) == Some(n),
{
    lemma_decimal_round_trip(n as nat);
}

} // verus!
