//! Digits and numbers: reading an integer from text and writing it out.

use vstd::prelude::*;

verus! {

/// Whether `c` is one of the ten decimal digits `0` to `9`.
pub open spec fn spec_is_digit(c: char) -> bool {
    '0' <= c && c <= '9'
}

/// The value of a decimal digit; 0 for any other character.
pub open spec fn digit_of(c: char) -> nat {
    if spec_is_digit(c) {
        (c as int - '0' as int) as nat
    } else {
        0
    }
}

/// The character that writes the digit `d`, for `d` below ten.
pub open spec fn digit_char(d: nat) -> char {
    ('0' as nat + d) as char
}

pub open spec fn all_digits(s: Seq<char>) -> bool {
    forall|i: int| 0 <= i < s.len() ==> spec_is_digit(#[trigger] s[i])
}

/// The number that a run of digits writes in base ten; 0 for the empty run.
pub open spec fn number(s: Seq<char>) -> nat
    decreases s.len(),
{
    if s.len() == 0 {
        0
    } else {
        10 * number(s.drop_last()) + digit_of(s.last())
    }
}

/// The integer that `s` writes: an optional sign `+` or `-`, then at least
/// one digit and nothing else, the whole within the range of `i32`.
pub open spec fn parsed(s: Seq<char>) -> Option<i32> {
    if s.len() == 0 {
        None
    } else if s[0] == '-' {
        let d = s.drop_first();
        if d.len() > 0 && all_digits(d) && number(d) <= 0x8000_0000 {
            Some((-(number(d) as int)) as i32)
        } else {
            None
        }
    } else {
        let d = if s[0] == '+' { s.drop_first() } else { s };
        if d.len() > 0 && all_digits(d) && number(d) <= 0x7fff_ffff {
            Some(number(d) as i32)
        } else {
            None
        }
    }
}

/// The shortest base-ten writing of `n`.
pub open spec fn decimal_nat(n: nat) -> Seq<char>
    decreases n,
{
    if n < 10 {
        seq![digit_char(n)]
    } else {
        decimal_nat(n / 10).push(digit_char(n % 10))
    }
}

/// The base-ten writing of `v`, with a leading `-` when it is negative.
pub open spec fn decimal_of(v: int) -> Seq<char> {
    if v < 0 {
        seq!['-'] + decimal_nat((-v) as nat)
    } else {
        decimal_nat(v as nat)
    }
}

/// A longer run of digits writes a number at least as large as any of its
/// prefixes does.
pub proof fn lemma_number_grows(s: Seq<char>, k: int)
    requires
        0 <= k <= s.len(),
    ensures
        number(s.take(k)) <= number(s),
    decreases s.len(),
{
    if k == s.len() {
        assert(s.take(k) =~= s);
    } else {
        assert(s.drop_last().take(k) =~= s.take(k));
        lemma_number_grows(s.drop_last(), k);
    }
}

/// One more digit at the end multiplies by ten and adds the digit.
pub proof fn lemma_number_push(s: Seq<char>, c: char)
    ensures
        number(s.push(c)) == 10 * number(s) + digit_of(c),
{
    assert(s.push(c).drop_last() =~= s);
}

/// The writing of a natural number consists of digits only, has at least
/// one, and writes that number.
pub proof fn lemma_decimal_nat(n: nat)
    ensures
        decimal_nat(n).len() >= 1,
        all_digits(decimal_nat(n)),
        number(decimal_nat(n)) == n,
    decreases n,
{
    if n < 10 {
        let s = decimal_nat(n);
        assert(s.drop_last() =~= Seq::<char>::empty());
        assert(number(s.drop_last()) == 0);
    } else {
        lemma_decimal_nat(n / 10);
        lemma_number_push(decimal_nat(n / 10), digit_char(n % 10));
    }
}

/// Writing an integer and reading the text back gives the integer.
pub proof fn lemma_parse_decimal(v: i32)
    ensures
        parsed(decimal_of(v as int)) == Some(v),
{
    if v < 0 {
        let n = (-v) as nat;
        lemma_decimal_nat(n);
        assert(decimal_of(v as int).drop_first() =~= decimal_nat(n));
    } else {
        lemma_decimal_nat(v as nat);
        let s = decimal_nat(v as nat);
        assert(spec_is_digit(s[0]));
    }
}

#[verifier::when_used_as_spec(spec_is_digit)]
pub fn is_digit(c: char) -> (yes: bool)
    ensures
        yes == spec_is_digit(c),
{
    c >= '0' && c <= '9'
}

/// `String::push` of the standard library: the text grows by the one
/// character at its end.
#[verifier::external_body]
pub(crate) fn push_char(text: &mut String, c: char)
    ensures
        final(text)@ == old(text)@.push(c),
{
    text.push(c);
}

/// The characters of `text`, in order.
pub(crate) fn chars_of(text: &str) -> (chars: Vec<char>)
    ensures
        chars@ == text@,
{
    broadcast use vstd::string::group_string_axioms;

    let mut chars: Vec<char> = Vec::new();
    for c in iter: text.chars()
        invariant
            iter.seq() == text@,
            chars@ == iter.seq().take(iter.index()),
    {
        chars.push(c);
    }
    assert(chars@ == text@);
    chars
}

/// Reads an integer as the standard library's `str::parse::<i32>` does.
#[verifier::loop_isolation(false)]
pub fn parse_int(string: &String) -> (value: Option<i32>)
    ensures
        value == parsed(string@),
{
    let chars = chars_of(string.as_str());
    let n = chars.len();
    if n == 0 {
        return None;
    }
    let negative = chars[0] == '-';
    let start: usize = if negative || chars[0] == '+' { 1 } else { 0 };
    if start == n {
        return None;
    }
    let limit: i64 = if negative { 0x8000_0000 } else { 0x7fff_ffff };
    let ghost digits = chars@.subrange(start as int, n as int);
    assert(digits =~= if start == 1 { chars@.drop_first() } else { chars@ });
    let mut acc: i64 = 0;
    let mut i: usize = start;
    assert(digits.take(0) =~= Seq::<char>::empty());
    while i < n
        invariant
            start <= i <= n,
            all_digits(digits.take(i - start)),
            acc == number(digits.take(i - start)),
            0 <= acc <= limit,
        decreases n - i,
    {
        let c = chars[i];
        let ghost k = i - start;
        assert(digits[k] == c);
        if !is_digit(c) {
            return None;
        }
        let d: i64 = (c as u32 - '0' as u32) as i64;
        let next: i64 = acc * 10 + d;
        proof {
            assert(digits.take(k + 1) =~= digits.take(k).push(c));
            lemma_number_push(digits.take(k), c);
            lemma_number_grows(digits, k + 1);
        }
        if next > limit {
            return None;
        }
        acc = next;
        i = i + 1;
    }
    assert(digits.take(n - start) =~= digits);
    if negative {
        Some((-acc) as i32)
    } else {
        Some(acc as i32)
    }
}

/// Appends the base-ten writing of `n` to `text`.
pub(crate) fn push_decimal(text: &mut String, n: u64)
    ensures
        final(text)@ == old(text)@ + decimal_nat(n as nat),
    decreases n,
{
    if n >= 10 {
        push_decimal(text, n / 10);
    }
    let d: u8 = (n % 10) as u8;
    push_char(text, (48u8 + d) as char);
    proof {
        if n < 10 {
            assert(old(text)@.push(digit_char(n as nat)) =~= old(text)@ + decimal_nat(n as nat));
        } else {
            assert((old(text)@ + decimal_nat((n / 10) as nat)).push(digit_char((n % 10) as nat))
                =~= old(text)@ + decimal_nat(n as nat));
        }
    }
}

/// Writes `v` in base ten, as the standard library formats an `i32`.
pub fn decimal(v: i32) -> (text: String)
    ensures
        text@ == decimal_of(v as int),
{
    let mut text = String::new();
    if v < 0 {
        push_char(&mut text, '-');
        push_decimal(&mut text, (-(v as i64)) as u64);
    } else {
        push_decimal(&mut text, v as u64);
    }
    assert(text@ =~= decimal_of(v as int));
    text
}

} // verus!
