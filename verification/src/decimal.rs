//! Numbers written in decimal.
use vstd::prelude::*;

use crate::text;

verus! {

/// Whether `c` is a decimal digit.
pub open spec fn is_digit(c: char) -> bool {
    '0' <= c <= '9'
}

/// What a digit counts.
pub open spec fn digit_value(c: char) -> nat {
    (c as u32 - '0' as u32) as nat
}

/// The number that a row of digits stands for.
pub open spec fn digits_value(digits: Seq<char>) -> nat
    decreases digits.len(),
{
    if digits.len() == 0 {
        0
    } else {
        10 * digits_value(digits.drop_last()) + digit_value(digits.last())
    }
}

/// The digits of a number, without leading zeros.
pub open spec fn decimal(n: nat) -> Seq<char>
    decreases n,
{
    let last = (('0' as u32 + n % 10) as u32) as char;
    if n < 10 {
        seq![last]
    } else {
        decimal(n / 10).push(last)
    }
}

/// `s` without one leading plus sign.
pub open spec fn without_plus(s: Seq<char>) -> Seq<char> {
    if s.len() > 0 && s[0] == '+' {
        s.skip(1)
    } else {
        s
    }
}

/// The 64-bit number that `s` stands for: an optional plus sign and then only digits, at least
/// one, whose value fits.
pub open spec fn u64_of(s: Seq<char>) -> Option<u64> {
    let digits = without_plus(s);
    if digits.len() > 0 && (forall|i: int| 0 <= i < digits.len() ==> is_digit(#[trigger] digits[i]))
        && digits_value(digits) <= u64::MAX {
        Some(digits_value(digits) as u64)
    } else {
        None
    }
}

proof fn lemma_value_grows(digits: Seq<char>, n: int)
    requires
        0 <= n <= digits.len(),
    ensures
        digits_value(digits.take(n)) <= digits_value(digits),
    decreases digits.len() - n,
{
    if n < digits.len() {
        assert(digits.drop_last().take(n) =~= digits.take(n));
        lemma_value_grows(digits.drop_last(), n);
    } else {
        assert(digits.take(n) =~= digits);
    }
}

/// The 64-bit number that `s` stands for.
pub fn parse_u64(s: &str) -> (res: Option<u64>)
    ensures
        res == u64_of(s@),
{
    let chars = text::chars(s);
    let ghost digits = without_plus(s@);
    let size: usize = chars.len();
    let first: usize = if size > 0 && chars[0] == '+' {
        1
    } else {
        0
    };
    assert(digits =~= s@.skip(first as int));
    if first == size {
        return None;
    }
    let mut value: u64 = 0;
    assert(digits.take(0) =~= seq![]);
    for i in first..size
        invariant
            size == chars@.len(),
            chars@ == s@,
            first <= size,
            digits == without_plus(s@),
            digits == s@.skip(first as int),
            value == digits_value(digits.take(i - first)),
            forall|j: int| 0 <= j < i - first ==> is_digit(#[trigger] digits[j]),
    {
        let c = chars[i];
        assert(c == digits[i - first]);
        if !('0' <= c && c <= '9') {
            return None;
        }
        let digit: u64 = c as u64 - '0' as u64;
        proof {
            assert(digits.take(i - first + 1).drop_last() =~= digits.take(i - first));
            lemma_value_grows(digits, i - first + 1);
        }
        if value > (u64::MAX - digit) / 10 {
            return None;
        }
        value = value * 10 + digit;
    }
    assert(digits.take(digits.len() as int) =~= digits);
    Some(value)
}

/// The digit that counts `n`.
fn digit_text(n: u64) -> (res: &'static str)
    requires
        n < 10,
    ensures
        res@ == seq![(('0' as u32 + n) as u32) as char],
{
    proof {
        reveal_strlit("0");
        reveal_strlit("1");
        reveal_strlit("2");
        reveal_strlit("3");
        reveal_strlit("4");
        reveal_strlit("5");
        reveal_strlit("6");
        reveal_strlit("7");
        reveal_strlit("8");
        reveal_strlit("9");
    }
    match n {
        0 => "0",
        1 => "1",
        2 => "2",
        3 => "3",
        4 => "4",
        5 => "5",
        6 => "6",
        7 => "7",
        8 => "8",
        _ => "9",
    }
}

/// Writes the digits of `n` at the end of `s`.
pub fn append_decimal(s: &mut String, n: u64)
    ensures
        final(s)@ == old(s)@ + decimal(n as nat),
    decreases n,
{
    if n >= 10 {
        append_decimal(s, n / 10);
    }
    let ghost before = s@;
    s.append(digit_text(n % 10));
    assert(s@ =~= old(s)@ + decimal(n as nat));
}

/// A number is read back from its digits.
pub proof fn law_numbers_are_read_back(n: u64)
    ensures
        u64_of(decimal(n as nat)) == Some(n),
{
    lemma_decimal(n as nat);
    assert(is_digit(decimal(n as nat)[0]));
}

proof fn lemma_decimal(n: nat)
    ensures
        decimal(n).len() > 0,
        forall|i: int| 0 <= i < decimal(n).len() ==> is_digit(#[trigger] decimal(n)[i]),
        digits_value(decimal(n)) == n,
    decreases n,
{
    let last = (('0' as u32 + n % 10) as u32) as char;
    if n < 10 {
        assert(decimal(n).drop_last() =~= seq![]);
        reveal_with_fuel(digits_value, 2);
    } else {
        lemma_decimal(n / 10);
        assert(decimal(n).drop_last() =~= decimal(n / 10));
    }
}

/// `n` zeros.
pub open spec fn zeros(n: nat) -> Seq<char> {
    Seq::new(n, |i: int| '0')
}

/// A plus sign, or nothing.
pub open spec fn sign(plus: bool) -> Seq<char> {
    if plus {
        seq!['+']
    } else {
        seq![]
    }
}

proof fn lemma_leading_zeros(n: nat, digits: Seq<char>)
    ensures
        digits_value(zeros(n) + digits) == digits_value(digits),
    decreases n + digits.len(),
{
    let all = zeros(n) + digits;
    if digits.len() > 0 {
        lemma_leading_zeros(n, digits.drop_last());
        assert(all.drop_last() =~= zeros(n) + digits.drop_last());
    } else if n > 0 {
        lemma_leading_zeros((n - 1) as nat, digits);
        assert(all.drop_last() =~= zeros((n - 1) as nat) + digits);
    } else {
        assert(all =~= digits);
    }
}

/// The digits of a number stand for it, with any number of zeros and with a plus sign in front too.
pub proof fn law_signed_and_padded_numbers_are_read(plus: bool, padding: nat, n: u64)
    ensures
        u64_of(sign(plus) + zeros(padding) + decimal(n as nat)) == Some(n),
{
    let digits = zeros(padding) + decimal(n as nat);
    let s = sign(plus) + zeros(padding) + decimal(n as nat);
    lemma_decimal(n as nat);
    lemma_leading_zeros(padding, decimal(n as nat));
    assert forall|i: int| 0 <= i < digits.len() implies is_digit(#[trigger] digits[i]) by {
        if i >= padding {
            assert(digits[i] == decimal(n as nat)[i - padding]);
        }
    }
    assert(is_digit(digits[0]));
    if plus {
        assert(s[0] == '+');
        assert(s.skip(1) =~= digits);
    } else {
        assert(s =~= digits);
    }
    assert(without_plus(s) == digits);
}

proof fn lemma_digits_are_decimal(digits: Seq<char>) -> (padding: nat)
    requires
        digits.len() > 0,
        forall|i: int| 0 <= i < digits.len() ==> is_digit(#[trigger] digits[i]),
    ensures
        digits == zeros(padding) + decimal(digits_value(digits)),
    decreases digits.len(),
{
    let front = digits.drop_last();
    let last = digits.last();
    assert(last == digits[digits.len() - 1] && is_digit(last));
    let d = digit_value(last);
    assert((('0' as u32 + d) as u32) as char == last);
    let value = digits_value(digits);
    if front.len() == 0 {
        assert(digits_value(front) == 0);
        assert(digits =~= zeros(0) + decimal(value));
        0
    } else {
        assert forall|i: int| 0 <= i < front.len() implies is_digit(#[trigger] front[i]) by {
            assert(front[i] == digits[i]);
        }
        let padding = lemma_digits_are_decimal(front);
        let before = digits_value(front);
        assert(value == 10 * before + d);
        assert(digits =~= front.push(last));
        if before == 0 {
            assert(decimal(before) =~= seq!['0']);
            assert(decimal(value) =~= seq![last]);
            assert(zeros(padding) + seq!['0'] =~= zeros(padding + 1));
            assert(digits =~= zeros(padding + 1) + decimal(value));
            padding + 1
        } else {
            assert(value / 10 == before && value % 10 == d);
            assert(decimal(value) == decimal(before).push(last));
            assert((zeros(padding) + decimal(before)).push(last) =~= zeros(padding) + decimal(
                before,
            ).push(last));
            padding
        }
    }
}

/// Whatever is read as a number is the digits of that number, with zeros or a plus sign in front
/// at most.
pub proof fn law_only_decimal_numbers_are_read(s: Seq<char>) -> (front: (bool, nat))
    requires
        u64_of(s) is Some,
    ensures
        s == sign(front.0) + zeros(front.1) + decimal(u64_of(s)->0 as nat),
{
    let digits = without_plus(s);
    let padding = lemma_digits_are_decimal(digits);
    let plus = s.len() > 0 && s[0] == '+';
    assert(s =~= sign(plus) + digits);
    assert(s =~= sign(plus) + zeros(padding) + decimal(u64_of(s)->0 as nat));
    (plus, padding)
}

/// Numbers are written in the base ten: one digit is a character of its own, and each further digit
/// is written behind the others.
pub proof fn law_digits_are_written_in_order(front: nat, digit: nat)
    requires
        digit < 10,
    ensures
        decimal(digit) == seq!["0123456789"@[digit as int]],
        front > 0 ==> decimal(10 * front + digit) == decimal(front) + decimal(digit),
{
    reveal_strlit("0123456789");
    let digits = "0123456789"@;
    assert(digits[0] == '0' && digits[1] == '1' && digits[2] == '2' && digits[3] == '3' && digits[4]
        == '4' && digits[5] == '5' && digits[6] == '6' && digits[7] == '7' && digits[8] == '8'
        && digits[9] == '9');
    assert(decimal(digit) =~= seq![digits[digit as int]]);
    if front > 0 {
        let n = 10 * front + digit;
        assert(n / 10 == front && n % 10 == digit);
        assert(decimal(n) =~= decimal(front) + decimal(digit));
    }
}

} // verus!
