//! Expansion of one raw barcode into the candidate forms worth searching for.
use vstd::prelude::*;
use crate::upc::{all_digits, check_digit, completed, digit_char, PAYLOAD_LEN};

verus! {

/// Length of an EAN-13 code.
pub const EAN_LEN: usize = 13;

/// The texts of a list of strings.
pub open spec fn texts(v: Seq<String>) -> Seq<Seq<char>> {
    v.map_values(|s: String| s@)
}

/// Index of the first entry of `c`, at `i` or later, that is `n` characters
/// long.
pub open spec fn first_len_from(c: Seq<Seq<char>>, n: nat, i: int) -> Option<int>
    decreases c.len() - i,
{
    if i < 0 || i >= c.len() {
        None
    } else if c[i].len() == n {
        Some(i)
    } else {
        first_len_from(c, n, i + 1)
    }
}

/// Index of the first entry of `c` that is `n` characters long.
pub open spec fn first_of_len(c: Seq<Seq<char>>, n: nat) -> Option<int> {
    first_len_from(c, n, 0)
}

/// `c` with `x` added at the end, unless `c` already holds it.
pub open spec fn add_candidate(c: Seq<Seq<char>>, x: Seq<char>) -> Seq<Seq<char>> {
    if c.contains(x) {
        c
    } else {
        c.push(x)
    }
}

/// The raw barcode, then (where it starts with "00") the barcode without
/// those two zeros.
pub open spec fn pair_strip_rule(raw: Seq<char>) -> Seq<Seq<char>> {
    if raw.len() >= 2 && raw[0] == '0' && raw[1] == '0' {
        add_candidate(seq![raw], raw.subrange(2, raw.len() as int))
    } else {
        seq![raw]
    }
}

/// Adds the 12-character remainder of the first 13-character candidate,
/// where that candidate starts with '0'.
pub open spec fn zero_strip_rule(c: Seq<Seq<char>>) -> Seq<Seq<char>> {
    match first_of_len(c, EAN_LEN as nat) {
        Some(i) => if c[i][0] == '0' {
            add_candidate(c, c[i].subrange(1, EAN_LEN as int))
        } else {
            c
        },
        None => c,
    }
}

/// Adds the first 11-character candidate completed with its check digit,
/// where that candidate is all digits.
pub open spec fn check_digit_rule(c: Seq<Seq<char>>) -> Seq<Seq<char>> {
    match first_of_len(c, PAYLOAD_LEN as nat) {
        Some(i) => if all_digits(c[i]) {
            add_candidate(c, completed(c[i]))
        } else {
            c
        },
        None => c,
    }
}

/// All candidate forms of a raw barcode, in the order the rules produce them.
pub open spec fn expansion(raw: Seq<char>) -> Seq<Seq<char>> {
    check_digit_rule(zero_strip_rule(pair_strip_rule(raw)))
}

/// Index of the first string of `c` that is `n` characters long.
fn find_len(c: &Vec<String>, n: usize) -> (r: Option<usize>)
    ensures
        match r {
            Some(i) => {
                &&& first_of_len(texts(c@), n as nat) == Some(i as int)
                &&& i < c@.len()
                &&& c@[i as int]@.len() == n
            },
            None => first_of_len(texts(c@), n as nat) is None,
        },
{
    let ghost t = texts(c@);
    let mut i: usize = 0;
    while i < c.len()
        invariant
            i <= c@.len(),
            t == texts(c@),
            first_len_from(t, n as nat, 0) == first_len_from(t, n as nat, i as int),
        decreases c@.len() - i,
    {
        if c[i].as_str().unicode_len() == n {
            return Some(i);
        }
        i = i + 1;
    }
    None
}

/// Whether `c` already holds a string with the text of `x`.
fn contains_text(c: &Vec<String>, x: &String) -> (r: bool)
    ensures
        r == texts(c@).contains(x@),
{
    let ghost t = texts(c@);
    let mut i: usize = 0;
    while i < c.len()
        invariant
            i <= c@.len(),
            t == texts(c@),
            forall|j: int| 0 <= j < i ==> t[j] != x@,
        decreases c@.len() - i,
    {
        if c[i] == *x {
            assert(t[i as int] == x@);
            return true;
        }
        i = i + 1;
    }
    false
}

/// Appends `x` to `c` unless `c` already holds its text.
fn push_candidate(c: &mut Vec<String>, x: String)
    ensures
        texts(final(c)@) == add_candidate(texts(old(c)@), x@),
        old(c)@.len() <= final(c)@.len(),
        forall|i: int| 0 <= i < old(c)@.len() ==> final(c)@[i] == old(c)@[i],
{
    if !contains_text(c, &x) {
        let ghost before = c@;
        c.push(x);
        assert(texts(c@) =~= texts(before).push(x@));
    }
}

/// A one-character string holding the digit `d`.
fn digit_text(d: u32) -> (r: &'static str)
    requires
        d <= 9,
    ensures
        r@ == seq![digit_char(d as int)],
{
    let digits = "0123456789";
    proof {
        reveal_strlit("0123456789");
    }
    let r = digits.substring_char(d as usize, d as usize + 1);
    assert(r@ =~= seq![digits@[d as int]]);
    r
}

/// The candidate forms under which a retailer's barcode may be listed.
///
/// The raw barcode always comes first. Then, each at most once and only
/// where it is new:
/// - where the barcode starts with "00", the barcode without them;
/// - where the first 13-character candidate starts with '0', its remaining
///   12 characters;
/// - where the first 11-character candidate is all digits, that candidate
///   followed by its UPC-A check digit.
pub fn expand_barcode(barcode: &str) -> (r: Vec<String>)
    ensures
        texts(r@) == expansion(barcode@),
        1 <= r@.len() <= 4,
        r@[0]@ == barcode@,
{
    let mut barcodes: Vec<String> = Vec::new();
    barcodes.push(String::from_str(barcode));
    assert(texts(barcodes@) =~= seq![barcode@]);
    let n = barcode.unicode_len();
    if n >= 2 && barcode.get_char(0) == '0' && barcode.get_char(1) == '0' {
        let rest = String::from_str(barcode.substring_char(2, n));
        push_candidate(&mut barcodes, rest);
    }
    assert(texts(barcodes@) == pair_strip_rule(barcode@));
    let ghost after_pair = texts(barcodes@);

    match find_len(&barcodes, EAN_LEN) {
        Some(i) => {
            let b = barcodes[i].as_str();
            if b.get_char(0) == '0' {
                let rest = String::from_str(b.substring_char(1, EAN_LEN));
                push_candidate(&mut barcodes, rest);
            }
        },
        None => {},
    }
    assert(texts(barcodes@) == zero_strip_rule(after_pair));
    let ghost after_zero = texts(barcodes@);

    match find_len(&barcodes, PAYLOAD_LEN) {
        Some(i) => {
            match check_digit(barcodes[i].as_str()) {
                Some(d) => {
                    let mut full = barcodes[i].clone();
                    full.append(digit_text(d));
                    assert(full@ =~= completed(after_zero[i as int]));
                    push_candidate(&mut barcodes, full);
                },
                None => {},
            }
        },
        None => {},
    }
    assert(texts(barcodes@) == check_digit_rule(after_zero));
    barcodes
}

} // verus!
