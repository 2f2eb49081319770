//! Character and string helpers: ASCII lowercasing, string equality,
//! decimal numerals (parsing and printing), and digit grouping.

use vstd::prelude::*;
use vstd::string::*;

verus! {

/// A decimal digit character.
pub open spec fn is_digit_char(c: char) -> bool {
    '0' <= c && c <= '9'
}

/// Numeric value of a digit character.
pub open spec fn digit_val(c: char) -> nat {
    ((c as int) - ('0' as int)) as nat
}

/// The digit character of a value below ten.
pub open spec fn digit_char(d: nat) -> char {
    ((d + ('0' as int)) as char)
}

/// Every character of `s` is a decimal digit.
pub open spec fn all_digits(s: Seq<char>) -> bool {
    forall|i: int| 0 <= i < s.len() ==> is_digit_char(#[trigger] s[i])
}

/// The value of a digit string, most significant digit first.
pub open spec fn digits_val(s: Seq<char>) -> nat
    decreases s.len(),
{
    if s.len() == 0 {
        0
    } else {
        digits_val(s.drop_last()) * 10 + digit_val(s.last())
    }
}

/// The decimal digit string of `n`, most significant digit first,
/// without leading zeros.
pub open spec fn dec_digits(n: nat) -> Seq<char>
    decreases n,
{
    if n < 10 {
        seq![digit_char(n)]
    } else {
        dec_digits(n / 10).push(digit_char(n % 10))
    }
}

/// The ASCII lowercase equivalent of a character: 'A'..='Z' map to
/// 'a'..='z', every other character is unchanged.
pub open spec fn lower_char(c: char) -> char {
    if 'A' <= c && c <= 'Z' {
        ((c as int) + 32) as char
    } else {
        c
    }
}

/// `s` with each character replaced by its ASCII lowercase equivalent.
pub open spec fn lower_seq(s: Seq<char>) -> Seq<char> {
    s.map(|_i: int, c: char| lower_char(c))
}

/// Relies on str::to_ascii_lowercase: returns a copy of the string with
/// each character mapped to its ASCII lowercase equivalent ('A'..='Z' to
/// 'a'..='z'); all other characters, ASCII or not, are unchanged.
#[verifier::external_body]
pub fn ascii_lowercase(s: &str) -> (r: String)
    ensures
        r@ == lower_seq(s@),
{
    s.to_ascii_lowercase()
}

/// Character-for-character string equality.
pub fn str_eq(a: &str, b: &str) -> (r: bool)
    ensures
        r == (a@ == b@),
{
    let an = a.unicode_len();
    let bn = b.unicode_len();
    if an != bn {
        return false;
    }
    let mut i: usize = 0;
    while i < an
        invariant
            0 <= i <= an,
            an == a@.len(),
            an == b@.len(),
            forall|j: int| 0 <= j < i ==> a@[j] == b@[j],
        decreases an - i,
    {
        if a.get_char(i) != b.get_char(i) {
            return false;
        }
        i = i + 1;
    }
    proof {
        assert(a@ =~= b@);
    }
    true
}

/// The digit part of a numeral: an optional leading '+' is dropped.
pub open spec fn numeral_body(s: Seq<char>) -> Seq<char> {
    if s.len() > 0 && s[0] == '+' {
        s.skip(1)
    } else {
        s
    }
}

/// `s` is a numeral that a `u32` holds: an optional '+', then one or
/// more digits, with a value of at most `u32::MAX`.
pub open spec fn is_u32_numeral(s: Seq<char>) -> bool {
    &&& numeral_body(s).len() > 0
    &&& all_digits(numeral_body(s))
    &&& digits_val(numeral_body(s)) <= u32::MAX
}

/// The value of a numeral.
pub open spec fn u32_numeral_val(s: Seq<char>) -> nat {
    digits_val(numeral_body(s))
}

/// The value of a digit string is at least the value of any of its prefixes.
pub proof fn lemma_digits_val_take_le(s: Seq<char>, k: int)
    requires
        0 <= k <= s.len(),
    ensures
        digits_val(s.take(k)) <= digits_val(s),
    decreases s.len() - k,
{
    if k < s.len() {
        lemma_digits_val_take_le(s.drop_last(), k);
        assert(s.drop_last().take(k) =~= s.take(k));
    } else {
        assert(s.take(k) =~= s);
    }
}

/// Parses a decimal numeral as `u32`, as the standard parser reads it:
/// an optional leading '+', then one or more digits; `None` when the
/// string has any other shape or the value does not fit.
pub fn parse_u32(s: &str) -> (r: Option<u32>)
    ensures
        r is Some <==> is_u32_numeral(s@),
        r is Some ==> r->0 == u32_numeral_val(s@),
{
    let n = s.unicode_len();
    let start: usize = if n > 0 && s.get_char(0) == '+' {
        1
    } else {
        0
    };
    proof {
        assert(numeral_body(s@) =~= s@.skip(start as int));
    }
    if n == start {
        return None;
    }
    let mut acc: u64 = 0;
    let mut i: usize = start;
    while i < n
        invariant
            start <= i <= n,
            n == s@.len(),
            numeral_body(s@) == s@.skip(start as int),
            all_digits(s@.skip(start as int).take(i - start)),
            acc == digits_val(s@.skip(start as int).take(i - start)),
            acc <= u32::MAX,
        decreases n - i,
    {
        let c = s.get_char(i);
        if !('0' <= c && c <= '9') {
            assert(!all_digits(numeral_body(s@))) by {
                assert(numeral_body(s@)[i - start] == c);
            }
            return None;
        }
        let d: u64 = (c as u32 - '0' as u32) as u64;
        proof {
            let body = s@.skip(start as int);
            assert(body.take(i + 1 - start).drop_last() =~= body.take(i - start));
            assert(body.take(i + 1 - start).last() == c);
        }
        acc = acc * 10 + d;
        i = i + 1;
        if acc > 0xFFFF_FFFF {
            proof {
                lemma_digits_val_take_le(numeral_body(s@), i - start);
            }
            return None;
        }
    }
    proof {
        assert(s@.skip(start as int).take(n - start) =~= s@.skip(start as int));
    }
    Some(acc as u32)
}

/// Appends one digit character to a string.
fn push_digit(s: &mut String, d: u8)
    requires
        d < 10,
    ensures
        final(s)@ == old(s)@.push(digit_char(d as nat)),
{
    proof {
        reveal_strlit("0");
        reveal_strlit("1");
        reveal_strlit("2");
        reveal_strlit("3");
        reveal_strlit("4");
        reveal_strlit("5");
        reveal_strlit("6");
        reveal_strlit("7");
        reveal_strlit("8");
        reveal_strlit("9");
    }
    match d {
        0 => s.append("0"),
        1 => s.append("1"),
        2 => s.append("2"),
        3 => s.append("3"),
        4 => s.append("4"),
        5 => s.append("5"),
        6 => s.append("6"),
        7 => s.append("7"),
        8 => s.append("8"),
        _ => s.append("9"),
    }
    proof {
        assert(final(s)@ =~= old(s)@.push(digit_char(d as nat)));
    }
}

/// The digit characters of the byte digits in `v`, read in reverse:
/// the last digit of `v` comes first.
pub open spec fn rev_digit_chars(v: Seq<u8>) -> Seq<char> {
    Seq::new(v.len(), |i: int| digit_char(v[v.len() - 1 - i] as nat))
}

/// Prints `n` in decimal, most significant digit first, no leading zeros.
pub fn u64_to_string(n: u64) -> (r: String)
    ensures
        r@ == dec_digits(n as nat),
{
    if n == 0 {
        let mut out = String::new();
        push_digit(&mut out, 0);
        proof {
            assert(out@ =~= dec_digits(0));
        }
        return out;
    }
    let mut digits: Vec<u8> = Vec::new();
    let mut m: u64 = n;
    proof {
        assert(dec_digits(n as nat) =~= dec_digits(n as nat) + rev_digit_chars(digits@));
    }
    while m > 0
        invariant
            forall|k: int| 0 <= k < digits.len() ==> digits[k] < 10,
            m > 0 ==> dec_digits(n as nat) == dec_digits(m as nat) + rev_digit_chars(digits@),
            m == 0 ==> digits.len() > 0 && dec_digits(n as nat) == rev_digit_chars(digits@),
        decreases m,
    {
        let ghost old_m = m as nat;
        let ghost old_digits = digits@;
        let d: u8 = (m % 10) as u8;
        digits.push(d);
        m = m / 10;
        proof {
            assert(rev_digit_chars(digits@) =~= seq![digit_char(d as nat)] + rev_digit_chars(
                old_digits,
            ));
            if m > 0 {
                assert(dec_digits(old_m) == dec_digits(m as nat).push(digit_char(d as nat)));
                assert(dec_digits(m as nat) + rev_digit_chars(digits@) =~= (dec_digits(
                    m as nat,
                ).push(digit_char(d as nat))) + rev_digit_chars(old_digits));
            } else {
                assert(dec_digits(old_m) =~= seq![digit_char(d as nat)]);
                assert(dec_digits(n as nat) =~= dec_digits(old_m) + rev_digit_chars(old_digits));
                assert(dec_digits(n as nat) =~= rev_digit_chars(digits@));
            }
        }
    }
    let total = digits.len();
    let mut out = String::new();
    let mut j: usize = 0;
    while j < total
        invariant
            0 <= j <= total,
            total == digits.len(),
            forall|k: int| 0 <= k < digits.len() ==> digits[k] < 10,
            dec_digits(n as nat) == rev_digit_chars(digits@),
            out@ == rev_digit_chars(digits@).take(j as int),
        decreases total - j,
    {
        let d = digits[total - 1 - j];
        push_digit(&mut out, d);
        j = j + 1;
        proof {
            assert(out@ =~= rev_digit_chars(digits@).take(j as int));
        }
    }
    proof {
        assert(rev_digit_chars(digits@).take(total as int) =~= rev_digit_chars(digits@));
    }
    out
}

/// `s` with a comma inserted after every group of three characters,
/// counted from the right.
pub open spec fn comma_grouped(s: Seq<char>) -> Seq<char>
    decreases s.len(),
{
    if s.len() <= 3 {
        s
    } else {
        comma_grouped(s.take(s.len() - 3)) + seq![','] + s.skip(s.len() - 3)
    }
}

/// Copies `s`, inserting a comma after every three characters from the right.
fn group_by_commas(s: &str) -> (r: String)
    ensures
        r@ == comma_grouped(s@),
    decreases s@.len(),
{
    let n = s.unicode_len();
    if n <= 3 {
        s.to_owned()
    } else {
        let head = s.substring_char(0, n - 3);
        let tail = s.substring_char(n - 3, n);
        let mut r = group_by_commas(head);
        r.append(",");
        r.append(tail);
        proof {
            reveal_strlit(",");
            assert(r@ =~= comma_grouped(s@));
        }
        r
    }
}

/// Formats a byte count in decimal with comma separators between
/// groups of three digits.
pub fn format_bytes(bytes: u64) -> (r: String)
    ensures
        r@ == comma_grouped(dec_digits(bytes as nat)),
{
    let s = u64_to_string(bytes);
    group_by_commas(s.as_str())
}

} // verus!
