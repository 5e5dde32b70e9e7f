//! Character classes and the numbers that a chart writes in text.

use vstd::prelude::*;
use vstd::string::*;

verus! {

/// `0` to `9`.
pub open spec fn is_decimal(c: char) -> bool {
    0x30 <= c as u32 <= 0x39
}

/// `A` to `Z`.
pub open spec fn is_upper(c: char) -> bool {
    0x41 <= c as u32 <= 0x5A
}

/// A digit of base 36: a decimal digit or an upper-case letter.
pub open spec fn is_base36(c: char) -> bool {
    is_decimal(c) || is_upper(c)
}

/// The value of a base-36 digit: `0` to `9` count 0 to 9, `A` to `Z` count 10 to 35.
pub open spec fn digit_value(c: char) -> int {
    if is_decimal(c) {
        c as u32 - 0x30
    } else {
        c as u32 - 0x41 + 10
    }
}

/// The object code that two base-36 digits write, the first digit counting 36.
pub open spec fn pair_value(hi: char, lo: char) -> int {
    digit_value(hi) * 36 + digit_value(lo)
}

/// Every character of `s` is a decimal digit.
pub open spec fn all_decimal(s: Seq<char>) -> bool {
    forall|i: int| 0 <= i < s.len() ==> is_decimal(#[trigger] s[i])
}

/// The number that a string of decimal digits writes, most significant digit first.
pub open spec fn decimal_value(s: Seq<char>) -> nat
    decreases s.len(),
{
    if s.len() == 0 {
        0
    } else {
        (decimal_value(s.drop_last()) * 10 + digit_value(s.last())) as nat
    }
}

/// The digits of an unsigned number: `s` without one leading `+`.
pub open spec fn unsigned_digits(s: Seq<char>) -> Seq<char> {
    if s.len() > 0 && s[0] == '+' {
        s.skip(1)
    } else {
        s
    }
}

/// `s` writes a number that fits sixteen bits: an optional `+`, then at least
/// one decimal digit and nothing else.
pub open spec fn is_u16_text(s: Seq<char>) -> bool {
    let digits = unsigned_digits(s);
    digits.len() > 0 && all_decimal(digits) && decimal_value(digits) <= u16::MAX
}

pub fn decimal_char(c: char) -> (b: bool)
    ensures
        b == is_decimal(c),
{
    let n: u32 = c as u32;
    0x30 <= n && n <= 0x39
}

pub fn upper_char(c: char) -> (b: bool)
    ensures
        b == is_upper(c),
{
    let n: u32 = c as u32;
    0x41 <= n && n <= 0x5A
}

pub fn base36_char(c: char) -> (b: bool)
    ensures
        b == is_base36(c),
{
    decimal_char(c) || upper_char(c)
}

/// The value of one base-36 digit.
pub fn base36_value(c: char) -> (v: u32)
    requires
        is_base36(c),
    ensures
        v == digit_value(c),
        v < 36,
{
    let n: u32 = c as u32;
    if n <= 0x39 {
        n - 0x30
    } else {
        n - 0x41 + 10
    }
}

/// A longer string of digits writes a number at least as large as any of its
/// prefixes does.
pub proof fn lemma_decimal_value_grows(s: Seq<char>, k: int)
    requires
        0 <= k <= s.len(),
        all_decimal(s),
    ensures
        decimal_value(s.take(k)) <= decimal_value(s),
    decreases s.len(),
{
    if k == s.len() {
        assert(s.take(k) =~= s);
    } else {
        assert(all_decimal(s.drop_last())) by {
            assert forall|j: int| 0 <= j < s.len() - 1 implies is_decimal(
                #[trigger] s.drop_last()[j],
            ) by {
                assert(s.drop_last()[j] == s[j]);
            }
        }
        assert(is_decimal(s.last()));
        lemma_decimal_value_grows(s.drop_last(), k);
        assert(s.drop_last().take(k) =~= s.take(k));
    }
}

/// Reads a number of at most sixteen bits: an optional `+`, then decimal
/// digits. `None` where the text is anything else or the number does not fit.
pub fn parse_u16(s: &str) -> (r: Option<u16>)
    ensures
        r is Some <==> is_u16_text(s@),
        r matches Some(v) ==> v == decimal_value(unsigned_digits(s@)),
{
    let n: usize = s.unicode_len();
    let mut start: usize = 0;
    if n > 0 && s.get_char(0) == '+' {
        start = 1;
    }
    let ghost digits = unsigned_digits(s@);
    assert(digits =~= s@.skip(start as int));
    if start == n {
        return None;
    }
    let mut acc: u32 = 0;
    let mut i: usize = start;
    while i < n
        invariant
            start <= i <= n,
            n == s@.len(),
            digits == s@.skip(start as int),
            digits == unsigned_digits(s@),
            all_decimal(digits.take(i - start)),
            acc == decimal_value(digits.take(i - start)),
            acc <= u16::MAX,
        decreases n - i,
    {
        let c: char = s.get_char(i);
        let ghost k: int = i - start;
        assert(digits[k] == c);
        if !decimal_char(c) {
            assert(!is_decimal(digits[k]));
            return None;
        }
        let d: u32 = base36_value(c);
        let next: u32 = acc * 10 + d;
        proof {
            assert(digits.take(k + 1).drop_last() =~= digits.take(k));
            assert(digits.take(k + 1).last() == c);
            assert(all_decimal(digits.take(k + 1))) by {
                assert forall|j: int| 0 <= j < k + 1 implies is_decimal(
                    #[trigger] digits.take(k + 1)[j],
                ) by {
                    if j < k {
                        assert(digits.take(k)[j] == digits.take(k + 1)[j]);
                    }
                }
            }
            assert(next == decimal_value(digits.take(k + 1)));
        }
        if next > 65535 {
            proof {
                if all_decimal(digits) {
                    lemma_decimal_value_grows(digits, k + 1);
                }
            }
            return None;
        }
        acc = next;
        i = i + 1;
    }
    assert(digits.take(i - start) =~= digits);
    Some(acc as u16)
}

} // verus!
