//! Small operations on strings that the library builds on.

use vstd::prelude::*;
use vstd::utf8::*;

verus! {

/// Relies on `String::from_utf8`: it accepts exactly the well-formed UTF-8
/// byte strings, and the string it gives holds the characters they encode.
#[verifier::external_body]
pub(crate) fn string_from_utf8(bytes: Vec<u8>) -> (r: Option<String>)
    ensures
        match r {
            Some(s) => valid_utf8(bytes@) && s@ == decode_utf8(bytes@),
            None => !valid_utf8(bytes@),
        },
{
    String::from_utf8(bytes).ok()
}

/// Relies on `String::push`: appends one character.
#[verifier::external_body]
pub(crate) fn push_char(s: &mut String, c: char)
    ensures
        final(s)@ == old(s)@.push(c),
{
    s.push(c)
}

/// A decimal digit.
pub open spec fn is_digit(c: char) -> bool {
    '0' <= c <= '9'
}

/// The value of a digit.
pub open spec fn digit_value(c: char) -> nat {
    (c as u32 - '0' as u32) as nat
}

/// The character of a digit value below ten.
pub open spec fn digit_char(d: nat) -> char {
    (d + 48) as u8 as char
}

/// Every character is a decimal digit.
pub open spec fn all_digits(s: Seq<char>) -> bool {
    forall|i: int| 0 <= i < s.len() ==> is_digit(#[trigger] s[i])
}

/// The number that a string of digits writes in decimal.
pub open spec fn digits_value(s: Seq<char>) -> nat
    decreases s.len(),
{
    if s.len() == 0 {
        0
    } else {
        digits_value(s.drop_last()) * 10 + digit_value(s.last())
    }
}

/// The decimal numeral of `n`, without leading zeros.
pub open spec fn decimal(n: nat) -> Seq<char>
    decreases n,
{
    if n < 10 {
        seq![digit_char(n)]
    } else {
        decimal(n / 10).push(digit_char(n % 10))
    }
}

/// What `str::parse::<u64>` accepts: an optional `+`, then at least one
/// digit, of a value that fits in 64 bits.
pub open spec fn decimal_u64(s: Seq<char>) -> Option<u64> {
    let d = if s.len() > 0 && s[0] == '+' {
        s.drop_first()
    } else {
        s
    };
    if d.len() > 0 && all_digits(d) && digits_value(d) <= u64::MAX {
        Some(digits_value(d) as u64)
    } else {
        None
    }
}

proof fn lemma_digits_value_grows(s: Seq<char>, j: int)
    requires
        0 <= j <= s.len(),
    ensures
        digits_value(s.subrange(0, j)) <= digits_value(s),
    decreases s.len() - j,
{
    if j < s.len() {
        let p = s.subrange(0, j + 1);
        assert(p.drop_last() =~= s.subrange(0, j));
        lemma_digits_value_grows(s, j + 1);
        assert(digits_value(p) >= digits_value(s.subrange(0, j))) by (nonlinear_arith)
            requires
                digits_value(p) == digits_value(s.subrange(0, j)) * 10 + digit_value(p.last()),
        ;
    } else {
        assert(s.subrange(0, j) =~= s);
    }
}

/// Reads a decimal `u64` as `str::parse::<u64>` does.
pub fn parse_u64(s: &str) -> (r: Option<u64>)
    ensures
        r == decimal_u64(s@),
{
    let n = s.unicode_len();
    let mut start: usize = 0;
    if n > 0 && s.get_char(0) == '+' {
        start = 1;
    }
    let ghost d = if s@.len() > 0 && s@[0] == '+' {
        s@.drop_first()
    } else {
        s@
    };
    assert(d =~= s@.subrange(start as int, n as int));
    if start == n {
        return None;
    }
    let mut acc: u64 = 0;
    let mut i: usize = start;
    assert(d.subrange(0, 0) =~= Seq::<char>::empty());
    while i < n
        invariant
            start <= i <= n,
            n == s@.len(),
            d == s@.subrange(start as int, n as int),
            d == (if s@.len() > 0 && s@[0] == '+' {
                s@.drop_first()
            } else {
                s@
            }),
            all_digits(d.subrange(0, i - start)),
            acc as nat == digits_value(d.subrange(0, i - start)),
        decreases n - i,
    {
        let c = s.get_char(i);
        let ghost p = d.subrange(0, i - start + 1);
        assert(p.drop_last() =~= d.subrange(0, i - start));
        assert(p.last() == c);
        if !('0' <= c && c <= '9') {
            assert(!all_digits(d)) by {
                assert(d[i - start] == c);
                assert(!is_digit(d[i - start]));
            }
            return None;
        }
        let v = (c as u32 - '0' as u32) as u64;
        if acc > (u64::MAX - v) / 10 {
            proof {
                assert(acc * 10 + v > u64::MAX) by (nonlinear_arith)
                    requires
                        acc > (u64::MAX - v) / 10,
                        v <= 9,
                ;
                lemma_digits_value_grows(d, i - start + 1);
            }
            return None;
        }
        assert(acc * 10 + v <= u64::MAX) by (nonlinear_arith)
            requires
                acc <= (u64::MAX - v) / 10,
                v <= 9,
        ;
        acc = acc * 10 + v;
        i = i + 1;
    }
    assert(d.subrange(0, n - start) =~= d);
    Some(acc)
}

/// The decimal numeral of `n`.
pub fn decimal_string(n: u64) -> (s: String)
    ensures
        s@ == decimal(n as nat),
    decreases n,
{
    let mut s = if n < 10 {
        String::new()
    } else {
        decimal_string(n / 10)
    };
    let d = (n % 10) as u8;
    push_char(&mut s, (d + 48) as char);
    proof {
        if n < 10 {
            assert(s@ =~= decimal(n as nat));
        }
    }
    s
}

proof fn lemma_digit_char(d: nat)
    requires
        d < 10,
    ensures
        is_digit(digit_char(d)),
        digit_value(digit_char(d)) == d,
        digit_char(d) != '+',
{
    assert(((d + 48) as u8 as char) as u32 == d + 48);
}

proof fn lemma_decimal_digits(n: nat)
    ensures
        all_digits(decimal(n)),
        digits_value(decimal(n)) == n,
        decimal(n).len() > 0,
        decimal(n)[0] != '+',
    decreases n,
{
    if n < 10 {
        lemma_digit_char(n);
        assert(decimal(n).drop_last() =~= Seq::<char>::empty());
        assert(digits_value(Seq::<char>::empty()) == 0);
        assert(decimal(n).last() == digit_char(n));
    } else {
        lemma_digit_char(n % 10);
        lemma_decimal_digits(n / 10);
        let s = decimal(n);
        assert(s.drop_last() =~= decimal(n / 10));
        assert(s.last() == digit_char(n % 10));
        assert(digits_value(s) == digits_value(decimal(n / 10)) * 10 + digit_value(digit_char(n % 10)));
        assert(n == (n / 10) * 10 + n % 10) by (nonlinear_arith);
        assert forall|i: int| 0 <= i < s.len() implies is_digit(#[trigger] s[i]) by {
            if i < s.len() - 1 {
                assert(s[i] == decimal(n / 10)[i]);
            }
        }
    }
}

/// Writing a number in decimal and reading it back gives the number.
pub proof fn lemma_parse_decimal(n: u64)
    ensures
        decimal_u64(decimal(n as nat)) == Some(n),
{
    lemma_decimal_digits(n as nat);
}

} // verus!
