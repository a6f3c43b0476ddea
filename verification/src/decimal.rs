//! Decimal text for integers: the canonical digits of a number, and parsing
//! of digit strings, proved to be mutual inverses. RESP frames integers and
//! lengths as decimal text, so both codecs build on this module.

use vstd::prelude::*;
use vstd::string::StrSliceExecFns;
use vstd::string::StringExecFns;

verus! {

/// The character for a single decimal digit value (`0` to `9`).
pub open spec fn digit_char(d: int) -> char {
    if d == 0 {
        '0'
    } else if d == 1 {
        '1'
    } else if d == 2 {
        '2'
    } else if d == 3 {
        '3'
    } else if d == 4 {
        '4'
    } else if d == 5 {
        '5'
    } else if d == 6 {
        '6'
    } else if d == 7 {
        '7'
    } else if d == 8 {
        '8'
    } else {
        '9'
    }
}

/// Canonical decimal digits of a natural number, most significant first,
/// without leading zeros (except for zero itself).
pub open spec fn dec_nat(n: nat) -> Seq<char>
    decreases n,
{
    if n < 10 {
        seq![digit_char(n as int)]
    } else {
        dec_nat(n / 10) + seq![digit_char((n % 10) as int)]
    }
}

/// Canonical decimal text of an integer: a leading minus sign when negative.
pub open spec fn dec_int(n: int) -> Seq<char> {
    if n < 0 {
        seq!['-'] + dec_nat((-n) as nat)
    } else {
        dec_nat(n as nat)
    }
}

pub open spec fn is_digit(c: char) -> bool {
    48 <= c as u32 <= 57
}

/// The numeric value of a digit character.
pub open spec fn digit_val(c: char) -> int {
    c as u32 - 48
}

pub open spec fn all_digits(s: Seq<char>) -> bool {
    forall|i: int| 0 <= i < s.len() ==> is_digit(#[trigger] s[i])
}

/// The value of a digit string read in base ten.
pub open spec fn digits_val(s: Seq<char>) -> int
    decreases s.len(),
{
    if s.len() == 0 {
        0
    } else {
        digits_val(s.drop_last()) * 10 + digit_val(s.last())
    }
}

/// Each digit character casts back to its value.
pub proof fn lemma_digit_char_val(d: int)
    requires
        0 <= d < 10,
    ensures
        is_digit(digit_char(d)),
        digit_val(digit_char(d)) == d,
{
    assert('0' as u32 == 48);
    assert('1' as u32 == 49);
    assert('2' as u32 == 50);
    assert('3' as u32 == 51);
    assert('4' as u32 == 52);
    assert('5' as u32 == 53);
    assert('6' as u32 == 54);
    assert('7' as u32 == 55);
    assert('8' as u32 == 56);
    assert('9' as u32 == 57);
}

pub proof fn lemma_digits_val_nonneg(s: Seq<char>)
    requires
        all_digits(s),
    ensures
        digits_val(s) >= 0,
    decreases s.len(),
{
    if s.len() > 0 {
        assert(all_digits(s.drop_last()));
        lemma_digits_val_nonneg(s.drop_last());
    }
}

/// The canonical digits of `n` are digits and read back as `n`.
pub proof fn lemma_dec_nat_val(n: nat)
    ensures
        dec_nat(n).len() >= 1,
        all_digits(dec_nat(n)),
        digits_val(dec_nat(n)) == n,
    decreases n,
{
    if n < 10 {
        lemma_digit_char_val(n as int);
        assert(digits_val(Seq::<char>::empty()) == 0);
        assert(dec_nat(n) =~= seq![digit_char(n as int)]);
        assert(dec_nat(n).drop_last() =~= Seq::<char>::empty());
    } else {
        lemma_dec_nat_val(n / 10);
        lemma_digit_char_val((n % 10) as int);
        let s = dec_nat(n / 10) + seq![digit_char((n % 10) as int)];
        assert(s.drop_last() =~= dec_nat(n / 10));
        assert(digits_val(s) == digits_val(dec_nat(n / 10)) * 10 + digit_val(
            digit_char((n % 10) as int),
        ));
        vstd::arithmetic::div_mod::lemma_fundamental_div_mod(n as int, 10);
    }
}

/// Extending a digit string on the right never decreases its value.
pub proof fn lemma_digits_val_prefix(s: Seq<char>, i: int)
    requires
        all_digits(s),
        0 <= i <= s.len(),
    ensures
        digits_val(s.subrange(0, i)) <= digits_val(s),
    decreases s.len() - i,
{
    if i == s.len() {
        assert(s.subrange(0, i) =~= s);
    } else {
        let t = s.subrange(0, i + 1);
        assert(all_digits(t));
        assert(t.drop_last() =~= s.subrange(0, i));
        lemma_digits_val_nonneg(s.subrange(0, i));
        assert(digits_val(t) == digits_val(s.subrange(0, i)) * 10 + digit_val(t.last()));
        lemma_digits_val_prefix(s, i + 1);
    }
}

/// The text of a single decimal digit.
fn digit_to_str(d: u64) -> (r: &'static str)
    requires
        d < 10,
    ensures
        r@ == seq![digit_char(d as int)],
{
    proof {
        reveal_strlit("0");
        reveal_strlit("1");
        reveal_strlit("2");
        reveal_strlit("3");
        reveal_strlit("4");
        reveal_strlit("5");
        reveal_strlit("6");
        reveal_strlit("7");
        reveal_strlit("8");
        reveal_strlit("9");
    }
    if d == 0 {
        "0"
    } else if d == 1 {
        "1"
    } else if d == 2 {
        "2"
    } else if d == 3 {
        "3"
    } else if d == 4 {
        "4"
    } else if d == 5 {
        "5"
    } else if d == 6 {
        "6"
    } else if d == 7 {
        "7"
    } else if d == 8 {
        "8"
    } else {
        "9"
    }
}

/// The canonical decimal text of an unsigned number.
pub fn u64_to_dec(n: u64) -> (s: String)
    ensures
        s@ == dec_nat(n as nat),
    decreases n,
{
    if n < 10 {
        String::from_str(digit_to_str(n))
    } else {
        let mut s = u64_to_dec(n / 10);
        s.append(digit_to_str(n % 10));
        s
    }
}

/// The canonical decimal text of a signed number.
pub fn i64_to_dec(n: i64) -> (s: String)
    ensures
        s@ == dec_int(n as int),
{
    if n >= 0 {
        u64_to_dec(n as u64)
    } else {
        let mag: u64 = if n == i64::MIN {
            9223372036854775808u64
        } else {
            (-n) as u64
        };
        proof {
            reveal_strlit("-");
        }
        let mut s = String::from_str("-");
        let digits = u64_to_dec(mag);
        s.append(digits.as_str());
        s
    }
}

/// A digit string that fits in a `u64`, or nothing.
pub open spec fn spec_parse_u64(s: Seq<char>) -> Option<u64> {
    if s.len() >= 1 && all_digits(s) && digits_val(s) <= u64::MAX {
        Some(digits_val(s) as u64)
    } else {
        None
    }
}

/// Parses an unsigned decimal number, exactly when the whole string is made
/// of digits and the value fits.
pub fn parse_u64(s: &str) -> (r: Option<u64>)
    ensures
        r == spec_parse_u64(s@),
{
    let len = s.unicode_len();
    if len == 0 {
        return None;
    }
    let mut i: usize = 0;
    let mut acc: u64 = 0;
    while i < len
        invariant
            0 <= i <= len,
            len == s@.len(),
            all_digits(s@.subrange(0, i as int)),
            acc as int == digits_val(s@.subrange(0, i as int)),
        decreases len - i,
    {
        let c = s.get_char(i);
        let u = c as u32;
        if u < 48 || u > 57 {
            assert(!is_digit(s@[i as int]));
            return None;
        }
        let d = (u - 48) as u64;
        proof {
            assert(s@.subrange(0, i + 1).drop_last() =~= s@.subrange(0, i as int));
            assert(all_digits(s@.subrange(0, i + 1)));
        }
        if acc > (u64::MAX - d) / 10 {
            proof {
                assert(acc * 10 + d > u64::MAX) by (nonlinear_arith)
                    requires
                        acc > (u64::MAX - d) / 10,
                        d < 10,
                ;
                if all_digits(s@) && digits_val(s@) <= u64::MAX {
                    lemma_digits_val_prefix(s@, i + 1);
                }
            }
            return None;
        }
        assert(acc * 10 + d <= u64::MAX) by (nonlinear_arith)
            requires
                acc <= (u64::MAX - d) / 10,
                d < 10,
        ;
        acc = acc * 10 + d;
        i = i + 1;
    }
    proof {
        assert(s@.subrange(0, len as int) =~= s@);
    }
    Some(acc)
}

/// A digit string whose value fits in a `usize`, or nothing.
pub open spec fn spec_parse_usize(s: Seq<char>) -> Option<usize> {
    if s.len() >= 1 && all_digits(s) && digits_val(s) <= usize::MAX {
        Some(digits_val(s) as usize)
    } else {
        None
    }
}

/// Parses an unsigned decimal number into a `usize`.
pub fn parse_usize(s: &str) -> (r: Option<usize>)
    ensures
        r == spec_parse_usize(s@),
{
    proof {
        if all_digits(s@) {
            lemma_digits_val_nonneg(s@);
        }
    }
    match parse_u64(s) {
        Some(v) => {
            if v <= usize::MAX as u64 {
                Some(v as usize)
            } else {
                None
            }
        },
        None => {
            proof {
                if s@.len() >= 1 && all_digits(s@) && digits_val(s@) <= usize::MAX {
                    assert(digits_val(s@) <= u64::MAX);
                }
            }
            None
        },
    }
}

/// Signed decimal text: an optional sign, then digits, the value in range
/// for an `i64`. Mirrors what the standard integer parser accepts.
pub open spec fn spec_parse_i64(s: Seq<char>) -> Option<i64> {
    if s.len() == 0 {
        None
    } else if s[0] == '-' {
        let t = s.subrange(1, s.len() as int);
        if t.len() >= 1 && all_digits(t) && digits_val(t) <= 9223372036854775808 {
            Some((-digits_val(t)) as i64)
        } else {
            None
        }
    } else if s[0] == '+' {
        let t = s.subrange(1, s.len() as int);
        if t.len() >= 1 && all_digits(t) && digits_val(t) <= i64::MAX {
            Some(digits_val(t) as i64)
        } else {
            None
        }
    } else {
        if all_digits(s) && digits_val(s) <= i64::MAX {
            Some(digits_val(s) as i64)
        } else {
            None
        }
    }
}

/// Parses a signed decimal number, exactly when the string is an optional
/// sign followed by digits and the value fits in an `i64`.
pub fn parse_i64(s: &str) -> (r: Option<i64>)
    ensures
        r == spec_parse_i64(s@),
{
    let len = s.unicode_len();
    if len == 0 {
        return None;
    }
    proof {
        if all_digits(s@) {
            lemma_digits_val_nonneg(s@);
        }
        let t0 = s@.subrange(1, s@.len() as int);
        if all_digits(t0) {
            lemma_digits_val_nonneg(t0);
        }
    }
    let first = s.get_char(0);
    if first == '-' {
        let t = s.substring_char(1, len);
        match parse_u64(t) {
            Some(v) => {
                if v <= 9223372036854775808u64 {
                    let r: i64 = if v == 9223372036854775808u64 {
                        i64::MIN
                    } else {
                        -(v as i64)
                    };
                    Some(r)
                } else {
                    None
                }
            },
            None => {
                proof {
                    let t0 = s@.subrange(1, s@.len() as int);
                    if t0.len() >= 1 && all_digits(t0) && digits_val(t0) <= 9223372036854775808 {
                        assert(digits_val(t0) <= u64::MAX);
                    }
                }
                None
            },
        }
    } else if first == '+' {
        let t = s.substring_char(1, len);
        match parse_u64(t) {
            Some(v) => {
                if v <= i64::MAX as u64 {
                    Some(v as i64)
                } else {
                    None
                }
            },
            None => {
                proof {
                    let t0 = s@.subrange(1, s@.len() as int);
                    if t0.len() >= 1 && all_digits(t0) && digits_val(t0) <= i64::MAX {
                        assert(digits_val(t0) <= u64::MAX);
                    }
                }
                None
            },
        }
    } else {
        proof {
            assert(s@.subrange(0, len as int) =~= s@);
        }
        match parse_u64(s) {
            Some(v) => {
                if v <= i64::MAX as u64 {
                    Some(v as i64)
                } else {
                    None
                }
            },
            None => {
                proof {
                    if all_digits(s@) && digits_val(s@) <= i64::MAX {
                        assert(digits_val(s@) <= u64::MAX);
                    }
                }
                None
            },
        }
    }
}

/// Reading back the canonical text of an integer yields the integer.
pub proof fn lemma_dec_int_parse(n: int)
    requires
        i64::MIN <= n <= i64::MAX,
    ensures
        spec_parse_i64(dec_int(n)) == Some(n as i64),
{
    if n < 0 {
        let m = (-n) as nat;
        lemma_dec_nat_val(m);
        let s = seq!['-'] + dec_nat(m);
        assert(s.subrange(1, s.len() as int) =~= dec_nat(m));
        assert(s[0] == '-');
    } else {
        lemma_dec_nat_val(n as nat);
        let s = dec_nat(n as nat);
        assert(s[0] != '-' && s[0] != '+') by {
            assert(is_digit(s[0]));
            assert('-' as u32 == 45);
            assert('+' as u32 == 43);
        }
    }
}

/// Reading back the canonical text of a length yields the length.
pub proof fn lemma_dec_nat_parse_usize(n: nat)
    requires
        n <= usize::MAX,
    ensures
        spec_parse_usize(dec_nat(n)) == Some(n as usize),
{
    lemma_dec_nat_val(n);
}

} // verus!
