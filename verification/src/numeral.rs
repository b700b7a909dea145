//! Numbers written out as digits.

use vstd::prelude::*;

use crate::text::{chars_of, text_of};

verus! {

/// The digit that stands for `d`: `0` to `9`, then `a` to `z`.
pub open spec fn digit(d: int) -> char {
    if d < 10 {
        (0x30 + d) as char
    } else {
        (0x61 + (d - 10)) as char
    }
}

/// `n` written with the digits of `radix`, without leading zeros.
pub open spec fn numeral(n: nat, radix: nat) -> Seq<char>
    decreases n,
{
    if radix < 2 || n < radix {
        seq![digit(n as int)]
    } else {
        proof {
            assert(n / radix < n) by (nonlinear_arith)
                requires
                    n >= radix,
                    radix >= 2,
            ;
        }
        numeral(n / radix, radix).push(digit((n % radix) as int))
    }
}

/// The number that a digit stands for.
pub open spec fn digit_value(c: char) -> nat {
    let n = c as u32;
    if n < 0x61 {
        (n - 0x30) as nat
    } else {
        (n - 0x61 + 10) as nat
    }
}

/// The number that `digits` write out in `radix`.
pub open spec fn numeral_value(digits: Seq<char>, radix: nat) -> nat
    decreases digits.len(),
{
    if digits.len() == 0 {
        0
    } else {
        numeral_value(digits.drop_last(), radix) * radix + digit_value(digits.last())
    }
}

/// Whether `c` is one of the ten decimal digits.
pub open spec fn is_decimal(c: char) -> bool {
    '0' <= c && c <= '9'
}

/// Whether `text` holds decimal digits alone.
pub open spec fn all_decimal(text: Seq<char>) -> bool {
    forall|i: int| 0 <= i < text.len() ==> is_decimal(#[trigger] text[i])
}

/// A numeral reads back as the number that it was written for, so two numbers
/// never share one.
pub proof fn numeral_reads_back(n: nat, radix: nat)
    requires
        2 <= radix <= 36,
    ensures
        numeral_value(numeral(n, radix), radix) == n,
        numeral(n, radix).len() > 0,
    decreases n,
{
    if n < radix {
        let digits = numeral(n, radix);
        assert(digits.drop_last() =~= Seq::<char>::empty());
        assert(numeral_value(digits.drop_last(), radix) == 0);
        assert(0 * radix == 0) by (nonlinear_arith);
    } else {
        assert(n / radix < n && n / radix >= 0) by (nonlinear_arith)
            requires
                n >= radix,
                radix >= 2,
        ;
        assert((n / radix) * radix + n % radix == n) by (nonlinear_arith)
            requires
                radix >= 2,
        ;
        assert(0 <= n % radix < radix) by (nonlinear_arith)
            requires
                radix >= 2,
        ;
        numeral_reads_back(n / radix, radix);
        let digits = numeral(n, radix);
        assert(digits.drop_last() =~= numeral(n / radix, radix));
    }
}

/// A numeral is made of digits alone: decimal digits up to radix ten, and
/// lower-case letters beside them above it.
pub proof fn numeral_holds_digits(n: nat, radix: nat, i: int)
    requires
        2 <= radix <= 36,
        0 <= i < numeral(n, radix).len(),
    ensures
        is_decimal(numeral(n, radix)[i]) || ('a' <= numeral(n, radix)[i] && numeral(n, radix)[i]
            <= 'z'),
        radix <= 10 ==> is_decimal(numeral(n, radix)[i]),
    decreases n,
{
    if n >= radix {
        assert(n / radix < n && n / radix >= 0) by (nonlinear_arith)
            requires
                n >= radix,
                radix >= 2,
        ;
        assert(0 <= n % radix < radix) by (nonlinear_arith)
            requires
                radix >= 2,
        ;
        if i < numeral(n / radix, radix).len() {
            numeral_holds_digits(n / radix, radix, i);
        }
    }
}

/// Two numbers with the same numeral are the same number.
pub proof fn numerals_are_distinct(a: nat, b: nat, radix: nat)
    requires
        2 <= radix <= 36,
        numeral(a, radix) == numeral(b, radix),
    ensures
        a == b,
{
    numeral_reads_back(a, radix);
    numeral_reads_back(b, radix);
}

fn digit_char(d: u8) -> (c: char)
    requires
        d < 36,
    ensures
        c == digit(d as int),
{
    let code: u8 = if d < 10 {
        0x30 + d
    } else {
        0x61 + (d - 10)
    };
    code as char
}

/// Writes `n` out in `radix`.
pub fn numeral_of(n: u64, radix: u64) -> (digits: String)
    requires
        2 <= radix <= 36,
    ensures
        digits@ == numeral(n as nat, radix as nat),
{
    let mut reversed: Vec<char> = Vec::new();
    let mut rest: u64 = n;
    while rest >= radix
        invariant
            2 <= radix <= 36,
            numeral(n as nat, radix as nat) == numeral(rest as nat, radix as nat)
                + reversed@.reverse(),
        decreases rest,
    {
        let ghost before = reversed@;
        let low: u64 = rest % radix;
        reversed.push(digit_char(low as u8));
        proof {
            assert(rest / radix < rest) by (nonlinear_arith)
                requires
                    rest >= radix,
                    radix >= 2,
            ;
            assert(reversed@.reverse() =~= seq![digit(low as int)] + before.reverse());
            assert(numeral(rest as nat, radix as nat) + before.reverse() =~= numeral(
                (rest / radix) as nat,
                radix as nat,
            ) + reversed@.reverse());
        }
        rest = rest / radix;
    }
    let ghost before = reversed@;
    reversed.push(digit_char(rest as u8));
    assert(reversed@.reverse() =~= seq![digit(rest as int)] + before.reverse());
    let mut chars: Vec<char> = Vec::new();
    let mut i: usize = reversed.len();
    while i > 0
        invariant
            i <= reversed.len(),
            chars@ == reversed@.reverse().take(reversed.len() - i),
        decreases i,
    {
        i = i - 1;
        chars.push(reversed[i]);
    }
    assert(chars@ =~= reversed@.reverse());
    text_of(chars.as_slice())
}

/// `n` in decimal.
pub open spec fn decimal(n: nat) -> Seq<char> {
    numeral(n, 10)
}

/// `n` in decimal, with a minus sign in front when it is negative.
pub open spec fn signed_decimal(n: int) -> Seq<char> {
    if n < 0 {
        seq!['-'] + decimal((-n) as nat)
    } else {
        decimal(n as nat)
    }
}

/// Writes `n` out in decimal.
pub fn decimal_of(n: u64) -> (digits: String)
    ensures
        digits@ == decimal(n as nat),
{
    numeral_of(n, 10)
}

/// Writes `n` out in decimal.
pub fn signed_decimal_of(n: i64) -> (digits: String)
    ensures
        digits@ == signed_decimal(n as int),
{
    if n < 0 {
        let size: u64 = (-(n as i128)) as u64;
        let mut out: String = String::new();
        out.push('-');
        out.append(decimal_of(size).as_str());
        out
    } else {
        decimal_of(n as u64)
    }
}

/// The digits of an unsigned decimal: a plus sign may stand in front.
pub open spec fn unsigned_digits(text: Seq<char>) -> Seq<char> {
    if text.len() > 0 && text[0] == '+' {
        text.skip(1)
    } else {
        text
    }
}

/// The number below two to the power of sixty-four that `text` writes out in
/// decimal, if it writes one.
pub open spec fn parsed_u64(text: Seq<char>) -> Option<u64> {
    let digits = unsigned_digits(text);
    if digits.len() > 0 && all_decimal(digits) && numeral_value(digits, 10) <= u64::MAX {
        Some(numeral_value(digits, 10) as u64)
    } else {
        None
    }
}

/// A number written out in decimal is read back unchanged.
pub proof fn decimal_reads_back(n: u64)
    ensures
        parsed_u64(decimal(n as nat)) == Some(n),
{
    numeral_reads_back(n as nat, 10);
    let digits = decimal(n as nat);
    assert forall|i: int| 0 <= i < digits.len() implies is_decimal(#[trigger] digits[i]) by {
        numeral_holds_digits(n as nat, 10, i);
    }
    assert(is_decimal(digits[0]));
    assert(unsigned_digits(digits) == digits);
}

proof fn lemma_longer_is_larger(digits: Seq<char>, short: int)
    requires
        0 <= short <= digits.len(),
    ensures
        numeral_value(digits.take(short), 10) <= numeral_value(digits, 10),
    decreases digits.len() - short,
{
    if short < digits.len() {
        lemma_longer_is_larger(digits.drop_last(), short);
        assert(digits.drop_last().take(short) =~= digits.take(short));
    } else {
        assert(digits.take(short) =~= digits);
    }
}

/// Reads an unsigned decimal number.
pub fn parse_u64(text: &str) -> (n: Option<u64>)
    ensures
        n == parsed_u64(text@),
{
    let chars = chars_of(text);
    let start: usize = if chars.len() > 0 && chars[0] == '+' {
        1
    } else {
        0
    };
    let ghost digits = unsigned_digits(text@);
    assert(digits =~= text@.skip(start as int));
    if chars.len() == start {
        return None;
    }
    let mut n: u64 = 0;
    let mut i: usize = start;
    while i < chars.len()
        invariant
            start <= i <= chars.len(),
            chars@ == text@,
            digits == text@.skip(start as int),
            digits == unsigned_digits(text@),
            n == numeral_value(digits.take(i - start), 10),
            forall|k: int| 0 <= k < i - start ==> is_decimal(#[trigger] digits[k]),
        decreases chars.len() - i,
    {
        let c: char = chars[i];
        let ghost at = i - start;
        assert(digits[at] == c);
        if !('0' <= c && c <= '9') {
            return None;
        }
        let d: u64 = (c as u32 - 0x30) as u64;
        proof {
            assert(digits.take(at + 1).drop_last() =~= digits.take(at));
            assert(digits.take(at + 1).last() == c);
            lemma_longer_is_larger(digits, at + 1);
        }
        if n > (u64::MAX - d) / 10 {
            return None;
        }
        n = n * 10 + d;
        i = i + 1;
    }
    assert(digits.take(chars.len() - start) =~= digits);
    Some(n)
}

/// The ten digits stand for zero to nine, and the letters from `a` on for ten and
/// more.
pub proof fn digits_are_in_their_order(d: int)
    ensures
        0 <= d < 10 ==> digit(d) as u32 == '0' as u32 + d && digit_value(digit(d)) == d,
        10 <= d < 36 ==> digit(d) as u32 == 'a' as u32 + (d - 10) && digit_value(digit(d)) == d,
{
}

/// A number is written from its highest digit to its lowest: that of `n` times
/// the radix plus a digit is that of `n` with the digit behind it.
pub proof fn numerals_grow_by_a_digit(n: nat, radix: nat, d: nat)
    requires
        2 <= radix <= 36,
        d < radix,
    ensures
        n > 0 ==> numeral(n * radix + d, radix) == numeral(n, radix).push(digit(d as int)),
        numeral(d, radix) == seq![digit(d as int)],
{
    if n > 0 {
        let m = n * radix + d;
        assert(m >= radix && m / radix == n && m % radix == d) by (nonlinear_arith)
            requires
                m == n * radix + d,
                n > 0,
                d < radix,
                radix >= 2,
        ;
    }
}

/// A number is read digit by digit: one more decimal digit behind a number makes
/// ten times that number and the digit, as long as that is no larger than the
/// largest number. A plus sign may stand in front, any other character makes it
/// no number, and so does the lack of a digit.
pub proof fn numbers_are_read_digit_by_digit(text: Seq<char>, n: u64, d: u64, i: int)
    requires
        d < 10,
    ensures
        parsed_u64(text) == Some(n) && n * 10 + d <= u64::MAX ==> parsed_u64(
            text.push(('0' as u32 + d) as char),
        ) == Some((n * 10 + d) as u64),
        parsed_u64(text) == Some(n) && n * 10 + d > u64::MAX ==> parsed_u64(
            text.push(('0' as u32 + d) as char),
        ) is None,
        parsed_u64(seq![('0' as u32 + d) as char]) == Some(d),
        parsed_u64(seq!['+', ('0' as u32 + d) as char]) == Some(d),
        parsed_u64(Seq::empty()) is None,
        parsed_u64(seq!['+']) is None,
        0 <= i < text.len() && !(('0' <= text[i] && text[i] <= '9') || (i == 0 && text[i] == '+'))
            ==> parsed_u64(text) is None,
{
    let c = ('0' as u32 + d) as char;
    assert(is_decimal(c) && digit_value(c) == d);
    let longer = text.push(c);
    if parsed_u64(text) is Some {
        let digits = unsigned_digits(text);
        assert(unsigned_digits(longer) =~= digits.push(c));
        assert(digits.push(c).drop_last() =~= digits);
        assert(all_decimal(digits.push(c)));
        assert(numeral_value(digits.push(c), 10) == numeral_value(digits, 10) * 10 + d);
    }
    let one = seq![c];
    assert(one.drop_last() =~= Seq::empty());
    assert(numeral_value(Seq::empty(), 10) == 0);
    assert(unsigned_digits(one) == one);
    assert(numeral_value(one, 10) == d);
    assert(all_decimal(one));
    let signed = seq!['+', c];
    assert(unsigned_digits(signed) =~= one);
    assert(unsigned_digits(seq!['+']) =~= Seq::empty());
    if 0 <= i < text.len() && !(('0' <= text[i] && text[i] <= '9') || (i == 0 && text[i] == '+')) {
        let digits = unsigned_digits(text);
        if text[0] == '+' {
            assert(digits[i - 1] == text[i]);
            assert(!is_decimal(digits[i - 1]));
        } else {
            assert(!is_decimal(digits[i]));
        }
    }
}

/// A negative number is written as a minus sign and its size, and any other as
/// it is without a sign.
pub proof fn signs_are_written_in_front(n: nat)
    ensures
        signed_decimal(n as int) == decimal(n),
        n > 0 ==> signed_decimal(-(n as int)) == seq!['-'] + decimal(n),
{
}

} // verus!
