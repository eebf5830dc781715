//! Decimal text for attribute values: formatting integers into strings and
//! reading them back, as the width/height accessors and the sequential node
//! identifiers require.

use vstd::prelude::*;
use vstd::string::StrSliceExecFns;

verus! {

/// The character for one decimal digit value.
pub open spec fn digit_char(d: int) -> char {
    ((d + 48) as u8) as char
}

/// The decimal digits of `n`, most significant first, no leading zeros
/// (`0` itself is the single digit `0`).
pub open spec fn spec_digits(n: nat) -> Seq<char>
    decreases n,
{
    if n < 10 {
        seq![digit_char(n as int)]
    } else {
        spec_digits(n / 10).push(digit_char((n % 10) as int))
    }
}

pub open spec fn is_digit(c: char) -> bool {
    48 <= c as int && c as int <= 57
}

pub open spec fn digit_val(c: char) -> int {
    c as int - 48
}

pub open spec fn all_digits(s: Seq<char>) -> bool {
    forall|i: int| 0 <= i < s.len() ==> is_digit(#[trigger] s[i])
}

/// The numeric value of a digit string, read left to right.
pub open spec fn digits_val(s: Seq<char>) -> int
    decreases s.len(),
{
    if s.len() == 0 {
        0
    } else {
        digits_val(s.drop_last()) * 10 + digit_val(s.last())
    }
}

/// The decimal text of a signed value: a minus sign before the magnitude's
/// digits when negative.
pub open spec fn spec_format_i32(v: int) -> Seq<char> {
    if v < 0 {
        seq!['-'] + spec_digits((-v) as nat)
    } else {
        spec_digits(v as nat)
    }
}

/// What reading an `i32` out of a string yields: an optional `+` or `-`
/// sign, then one or more decimal digits, with the value in range; anything
/// else is rejected.
pub open spec fn spec_parse_i32(s: Seq<char>) -> Option<i32> {
    if s.len() > 0 && (s[0] == '-' || s[0] == '+') {
        let mag = s.subrange(1, s.len() as int);
        if mag.len() > 0 && all_digits(mag) {
            if s[0] == '-' {
                if digits_val(mag) <= 2147483648 {
                    Some((-digits_val(mag)) as i32)
                } else {
                    None
                }
            } else {
                if digits_val(mag) <= 2147483647 {
                    Some(digits_val(mag) as i32)
                } else {
                    None
                }
            }
        } else {
            None
        }
    } else {
        if s.len() > 0 && all_digits(s) {
            if digits_val(s) <= 2147483647 {
                Some(digits_val(s) as i32)
            } else {
                None
            }
        } else {
            None
        }
    }
}

/// A digit string's value is nonnegative.
pub proof fn lemma_digits_val_nonneg(s: Seq<char>)
    requires
        all_digits(s),
    ensures
        digits_val(s) >= 0,
    decreases s.len(),
{
    if s.len() > 0 {
        assert(all_digits(s.drop_last()));
        lemma_digits_val_nonneg(s.drop_last());
    }
}

/// `spec_digits` produces a nonempty digit string whose value is `n` again.
pub proof fn lemma_digits_ok(n: nat)
    ensures
        spec_digits(n).len() >= 1,
        all_digits(spec_digits(n)),
        digits_val(spec_digits(n)) == n,
    decreases n,
{
    if n < 10 {
        assert(spec_digits(n) =~= seq![digit_char(n as int)]);
        assert(spec_digits(n).drop_last() =~= Seq::<char>::empty());
        assert(digits_val(Seq::<char>::empty()) == 0);
    } else {
        lemma_digits_ok(n / 10);
        let s = spec_digits(n);
        assert(s =~= spec_digits(n / 10).push(digit_char((n % 10) as int)));
        assert(s.drop_last() =~= spec_digits(n / 10));
        assert(s.last() == digit_char((n % 10) as int));
        assert(digits_val(s) == (n / 10) * 10 + n % 10);
        assert((n / 10) * 10 + n % 10 == n) by {
            vstd::arithmetic::div_mod::lemma_fundamental_div_mod(n as int, 10);
        }
    }
}

/// Distinct numbers have distinct decimal texts.
pub proof fn lemma_digits_injective(a: nat, b: nat)
    requires
        spec_digits(a) == spec_digits(b),
    ensures
        a == b,
{
    lemma_digits_ok(a);
    lemma_digits_ok(b);
}

/// A digit string's value only grows as digits are appended: any prefix
/// values at most the whole.
pub proof fn lemma_digits_val_prefix(s: Seq<char>, k: int)
    requires
        all_digits(s),
        0 <= k <= s.len(),
    ensures
        digits_val(s.subrange(0, k)) <= digits_val(s),
    decreases s.len(),
{
    if k == s.len() {
        assert(s.subrange(0, k) =~= s);
    } else {
        let butlast = s.drop_last();
        assert(all_digits(butlast));
        assert(s.subrange(0, k) =~= butlast.subrange(0, k));
        lemma_digits_val_prefix(butlast, k);
        lemma_digits_val_nonneg(butlast);
        assert(digits_val(s) == digits_val(butlast) * 10 + digit_val(s.last()));
        assert(digits_val(butlast) * 10 >= digits_val(butlast));
        assert(digit_val(s.last()) >= 0);
    }
}

/// Formatting then parsing gives the value back, for every `i32`.
pub proof fn lemma_format_parse_i32(v: i32)
    ensures
        spec_parse_i32(spec_format_i32(v as int)) == Some(v),
{
    if v >= 0 {
        let s = spec_format_i32(v as int);
        lemma_digits_ok(v as nat);
        assert(is_digit(s[0]));
        assert(s[0] as int != 45 && s[0] as int != 43);
        assert(s[0] != '-' && s[0] != '+');
    } else {
        let m = (-(v as int)) as nat;
        let d = spec_digits(m);
        let s = spec_format_i32(v as int);
        lemma_digits_ok(m);
        assert(s == seq!['-'] + d);
        assert(s.len() == 1 + d.len());
        assert(s[0] == '-');
        assert(s.subrange(1, s.len() as int) =~= d);
        assert(digits_val(d) == m <= 2147483648);
        assert((-digits_val(d)) as i32 == v);
    }
}

/// Relies on `String::push` from std: appends the one character to the end
/// of the string.
#[verifier::external_body]
fn push_char(s: &mut String, c: char)
    ensures
        final(s)@ == old(s)@.push(c),
{
    s.push(c);
}

fn digit_char_of(d: u64) -> (c: char)
    requires
        d < 10,
    ensures
        c == digit_char(d as int),
{
    (48 + d as u8) as char
}

/// The decimal text of an unsigned value.
pub fn format_u64(n: u64) -> (r: String)
    ensures
        r@ == spec_digits(n as nat),
    decreases n,
{
    if n < 10 {
        let mut s = String::new();
        push_char(&mut s, digit_char_of(n));
        proof {
            assert(s@ =~= spec_digits(n as nat));
        }
        s
    } else {
        let mut s = format_u64(n / 10);
        push_char(&mut s, digit_char_of(n % 10));
        s
    }
}

/// The decimal text of a signed value.
pub fn format_i32(v: i32) -> (r: String)
    ensures
        r@ == spec_format_i32(v as int),
{
    if v >= 0 {
        format_u64(v as u64)
    } else {
        let mag = (-(v as i64)) as u64;
        let mut s = String::new();
        push_char(&mut s, '-');
        let digits = format_u64(mag);
        s.append(digits.as_str());
        proof {
            assert(s@ =~= seq!['-'] + spec_digits(mag as nat));
        }
        s
    }
}

/// Reads an `i32` from decimal text: an optional sign and digits, rejecting
/// anything else or any out-of-range value, exactly as `spec_parse_i32` says.
pub fn parse_i32(s: &str) -> (r: Option<i32>)
    ensures
        r == spec_parse_i32(s@),
{
    let n = s.unicode_len();
    if n == 0 {
        return None;
    }
    let first = s.get_char(0);
    let neg = first == '-';
    let signed = neg || first == '+';
    let start: usize = if signed { 1 } else { 0 };
    if start == n {
        return None;
    }
    let ghost mag = s@.subrange(start as int, n as int);
    proof {
        if !signed {
            assert(mag =~= s@);
        }
    }
    let mut acc: u64 = 0;
    let mut i: usize = start;
    while i < n
        invariant
            start <= i <= n,
            n == s@.len(),
            signed == (s@[0] == '-' || s@[0] == '+'),
            neg == (s@[0] == '-'),
            start == if signed { 1int } else { 0int },
            mag == s@.subrange(start as int, n as int),
            !signed ==> mag == s@,
            all_digits(s@.subrange(start as int, i as int)),
            acc == digits_val(s@.subrange(start as int, i as int)),
            acc <= 2147483648,
        decreases n - i,
    {
        let c = s.get_char(i);
        let u = c as u32;
        if u < 48 || u > 57 {
            assert(!is_digit(s@[i as int]));
            assert(!all_digits(mag)) by {
                assert(mag[i - start] == s@[i as int]);
            }
            return None;
        }
        let ghost prev = s@.subrange(start as int, i as int);
        let ghost cur = s@.subrange(start as int, i + 1);
        acc = acc * 10 + (u - 48) as u64;
        i = i + 1;
        proof {
            assert(cur.drop_last() =~= prev);
            assert(cur.last() == s@[i - 1]);
            assert(all_digits(cur));
            assert(acc == digits_val(cur));
        }
        if acc > 2147483648 {
            proof {
                if all_digits(mag) {
                    assert(cur =~= mag.subrange(0, i - start));
                    lemma_digits_val_prefix(mag, i - start);
                }
            }
            return None;
        }
    }
    proof {
        assert(s@.subrange(start as int, i as int) =~= mag);
        lemma_digits_val_nonneg(mag);
    }
    if neg {
        let v = -(acc as i64);
        Some(v as i32)
    } else {
        if acc > 2147483647 {
            None
        } else {
            Some(acc as i32)
        }
    }
}

} // verus!
