//! UPC-A check digits (the Modulo-10 scheme with weights 3, 1, 3, 1, ...).
use vstd::prelude::*;

verus! {

/// Number of digits in a UPC-A payload, before its check digit.
pub const PAYLOAD_LEN: usize = 11;

/// Number of digits in a complete UPC-A code.
pub const UPC_LEN: usize = 12;

/// A decimal digit character.
pub open spec fn is_digit(c: char) -> bool {
    '0' <= c <= '9'
}

/// Every character of `s` is a decimal digit.
pub open spec fn all_digits(s: Seq<char>) -> bool {
    forall|i: int| 0 <= i < s.len() ==> is_digit(#[trigger] s[i])
}

/// The numeric value of a digit character.
pub open spec fn digit_value(c: char) -> int {
    c as int - '0' as int
}

/// The digit character whose value is `d` (for `0 <= d <= 9`).
pub open spec fn digit_char(d: int) -> char {
    (d + '0' as int) as char
}

/// Weight of the digit at 0-based index `i`: 3 on the first, third, ...
/// digit counted from the left, 1 on the others.
pub open spec fn weight(i: int) -> int {
    if i % 2 == 0 {
        3
    } else {
        1
    }
}

/// Sum of the digits of `s`, each times the weight of its index.
pub open spec fn weighted_sum(s: Seq<char>) -> int
    decreases s.len(),
{
    if s.len() == 0 {
        0
    } else {
        weighted_sum(s.drop_last()) + digit_value(s.last()) * weight(s.len() - 1)
    }
}

/// The check digit that completes an 11-digit payload.
pub open spec fn check_digit_of(payload: Seq<char>) -> int {
    (10 - weighted_sum(payload) % 10) % 10
}

/// `payload` followed by its check digit.
pub open spec fn completed(payload: Seq<char>) -> Seq<char> {
    payload.push(digit_char(check_digit_of(payload)))
}

/// A well-formed UPC-A code: twelve digits whose weighted sum is a
/// multiple of ten.
pub open spec fn upc_valid(code: Seq<char>) -> bool {
    &&& code.len() == UPC_LEN
    &&& all_digits(code)
    &&& weighted_sum(code) % 10 == 0
}

proof fn lemma_weighted_sum_digits(s: Seq<char>)
    requires
        all_digits(s),
    ensures
        0 <= weighted_sum(s) <= 27 * s.len(),
    decreases s.len(),
{
    if s.len() > 0 {
        lemma_weighted_sum_digits(s.drop_last());
    }
}

/// Appending the check digit to any 11-digit payload gives a digit that is
/// between 0 and 9, and a code that validates as a UPC-A on its own.
pub proof fn lemma_check_digit_completes(payload: Seq<char>)
    requires
        payload.len() == PAYLOAD_LEN,
        all_digits(payload),
    ensures
        0 <= check_digit_of(payload) <= 9,
        is_digit(digit_char(check_digit_of(payload))),
        upc_valid(completed(payload)),
{
    let full = completed(payload);
    lemma_weighted_sum_digits(payload);
    assert(full.drop_last() =~= payload);
    assert(digit_value(full.last()) == check_digit_of(payload));
    assert(all_digits(full)) by {
        assert forall|i: int| 0 <= i < full.len() implies is_digit(#[trigger] full[i]) by {
            if i < payload.len() {
                assert(full[i] == payload[i]);
            }
        }
    }
}

/// The value of a character if it is a decimal digit.
fn digit_of(c: char) -> (r: Option<u32>)
    ensures
        r.is_some() == is_digit(c),
        r.is_some() ==> r.unwrap() as int == digit_value(c) && r.unwrap() <= 9,
{
    if '0' <= c && c <= '9' {
        Some(c as u32 - '0' as u32)
    } else {
        None
    }
}

/// Weighted sum of the first `n` characters of `s`, or `None` where one of
/// them is not a digit.
fn weighted_prefix_sum(s: &str, n: usize) -> (r: Option<u32>)
    requires
        n <= s@.len(),
        n <= UPC_LEN,
    ensures
        r.is_some() == all_digits(s@.subrange(0, n as int)),
        r.is_some() ==> r.unwrap() as int == weighted_sum(s@.subrange(0, n as int)),
{
    let mut sum: u32 = 0;
    let mut i: usize = 0;
    while i < n
        invariant
            i <= n,
            n <= s@.len(),
            n <= UPC_LEN,
            all_digits(s@.subrange(0, i as int)),
            sum as int == weighted_sum(s@.subrange(0, i as int)),
            sum <= 27 * i,
        decreases n - i,
    {
        let c = s.get_char(i);
        let d = match digit_of(c) {
            Some(d) => d,
            None => {
                assert(!all_digits(s@.subrange(0, n as int))) by {
                    assert(s@.subrange(0, n as int)[i as int] == c);
                }
                return None;
            },
        };
        let w: u32 = if i % 2 == 0 {
            3
        } else {
            1
        };
        proof {
            let next = s@.subrange(0, i + 1);
            assert(next.drop_last() =~= s@.subrange(0, i as int));
            assert(next.last() == c);
            assert(all_digits(next)) by {
                assert forall|j: int| 0 <= j < next.len() implies is_digit(#[trigger] next[j]) by {
                    if j < i {
                        assert(next[j] == s@.subrange(0, i as int)[j]);
                    }
                }
            }
        }
        sum = sum + d * w;
        i = i + 1;
    }
    Some(sum)
}

/// The check digit of an 11-digit payload; `None` where `payload` is not
/// exactly eleven decimal digits.
pub fn check_digit(payload: &str) -> (r: Option<u32>)
    ensures
        r.is_some() == (payload@.len() == PAYLOAD_LEN && all_digits(payload@)),
        r.is_some() ==> r.unwrap() as int == check_digit_of(payload@) && r.unwrap() <= 9,
{
    if payload.unicode_len() != PAYLOAD_LEN {
        return None;
    }
    assert(payload@.subrange(0, PAYLOAD_LEN as int) =~= payload@);
    match weighted_prefix_sum(payload, PAYLOAD_LEN) {
        Some(sum) => Some((10 - sum % 10) % 10),
        None => None,
    }
}

/// Whether `code` is a well-formed UPC-A: twelve digits whose check digit
/// matches the first eleven.
pub fn is_valid_upc(code: &str) -> (r: bool)
    ensures
        r == upc_valid(code@),
{
    if code.unicode_len() != UPC_LEN {
        return false;
    }
    assert(code@.subrange(0, UPC_LEN as int) =~= code@);
    match weighted_prefix_sum(code, UPC_LEN) {
        Some(sum) => sum % 10 == 0,
        None => false,
    }
}

} // verus!
