//! Characters, strings and digits: what the scanner, the printer and the
//! decimals share.

use vstd::prelude::*;

verus! {

/// Assumed of `String::push` of the standard library, not proved: the string
/// afterwards is the string before with the one character added at its end.
pub assume_specification[ std::string::String::push ](s: &mut std::string::String, c: char)
    ensures
        final(s)@ == old(s)@.push(c),
;

/// Assumed of `==` on `str` of the standard library, not proved: two string
/// slices are equal exactly when they spell the same characters in the same
/// order.
pub assume_specification[ <str as PartialEq>::eq ](a: &str, b: &str) -> (r: bool)
    ensures
        r == (a@ == b@),
;

/// The characters of a string slice, in order.
pub fn chars_of(s: &str) -> (v: Vec<char>)
    ensures
        v@ == s@,
{
    let mut v: Vec<char> = Vec::new();
    for c in it: s.chars()
        invariant
            v@ == it.seq().take(it.index() as int),
    {
        v.push(c);
    }
    v
}

/// The string that spells the given characters.
pub fn string_of(chars: &[char]) -> (s: String)
    ensures
        s@ == chars@,
{
    let mut s = String::new();
    let mut i: usize = 0;
    while i < chars.len()
        invariant
            i <= chars.len(),
            s@ == chars@.take(i as int),
        decreases chars.len() - i,
    {
        s.push(chars[i]);
        i += 1;
    }
    s
}

/// Whether `c` is one of the ten decimal digits.
pub open spec fn is_digit_char(c: char) -> bool {
    '0' <= c <= '9'
}

/// Whether every character of `s` is a decimal digit.
pub open spec fn all_digits(s: Seq<char>) -> bool {
    forall|i: int| 0 <= i < s.len() ==> is_digit_char(#[trigger] s[i])
}

/// The number a digit stands for.
pub open spec fn digit_value(c: char) -> nat {
    (c as int - '0' as int) as nat
}

/// The digit that stands for `d`, for `d` below ten.
pub open spec fn digit_char(d: nat) -> char {
    (d + '0' as nat) as char
}

/// The number that a run of digits spells in base ten; the empty run spells zero.
pub open spec fn digits_value(s: Seq<char>) -> nat
    decreases s.len(),
{
    if s.len() == 0 {
        0
    } else {
        10 * digits_value(s.drop_last()) + digit_value(s.last())
    }
}

/// The shortest run of digits that spells `n` in base ten.
pub open spec fn nat_digits(n: nat) -> Seq<char>
    decreases n,
{
    if n < 10 {
        seq![digit_char(n)]
    } else {
        nat_digits(n / 10).push(digit_char(n % 10))
    }
}

/// The decimal spelling of an integer, with a leading minus sign when negative.
pub open spec fn int_text(n: int) -> Seq<char> {
    if n < 0 {
        seq!['-'] + nat_digits((-n) as nat)
    } else {
        nat_digits(n as nat)
    }
}

/// Spelling a number and reading the digits back gives the number again.
pub proof fn lemma_nat_digits_value(n: nat)
    ensures
        all_digits(nat_digits(n)),
        nat_digits(n).len() >= 1,
        digits_value(nat_digits(n)) == n,
        n > 0 ==> nat_digits(n)[0] != '0',
    decreases n,
{
    if n < 10 {
        let s = nat_digits(n);
        assert(s.drop_last() =~= Seq::<char>::empty());
        assert(digits_value(s.drop_last()) == 0);
    } else {
        lemma_nat_digits_value(n / 10);
        let p = nat_digits(n / 10);
        let s = nat_digits(n);
        assert(s.drop_last() =~= p);
        assert(s.last() == digit_char(n % 10));
        assert(s[0] == p[0]);
        assert forall|i: int| 0 <= i < s.len() implies is_digit_char(#[trigger] s[i]) by {
            if i < p.len() {
                assert(s[i] == p[i]);
            }
        }
    }
}

/// The value of one digit character.
pub(crate) fn digit_of(c: char) -> (d: u32)
    requires
        is_digit_char(c),
    ensures
        d == digit_value(c),
        d < 10,
{
    (c as u32) - ('0' as u32)
}

/// The character for one digit.
pub(crate) fn char_of_digit(d: u32) -> (c: char)
    requires
        d < 10,
    ensures
        c == digit_char(d as nat),
        is_digit_char(c),
{
    (d as u8 + 48u8) as char
}

/// Appends the decimal spelling of `n` to `out`.
pub fn push_nat(out: &mut Vec<char>, n: u64)
    ensures
        final(out)@ == old(out)@ + nat_digits(n as nat),
    decreases n,
{
    if n < 10 {
        out.push(char_of_digit(n as u32));
        assert(final(out)@ =~= old(out)@ + nat_digits(n as nat));
    } else {
        push_nat(out, n / 10);
        out.push(char_of_digit((n % 10) as u32));
        assert(final(out)@ =~= old(out)@ + nat_digits(n as nat));
    }
}

/// Appends the decimal spelling of `n`, with its sign, to `out`.
pub fn push_int(out: &mut Vec<char>, n: i64)
    ensures
        final(out)@ == old(out)@ + int_text(n as int),
{
    if n < 0 {
        out.push('-');
        let m: u64 = if n == i64::MIN { 9223372036854775808u64 } else { (-n) as u64 };
        push_nat(out, m);
        assert(final(out)@ =~= old(out)@ + int_text(n as int));
    } else {
        push_nat(out, n as u64);
    }
}

/// Where the run of digits that starts at `from` ends: the first position at or
/// after `from` that holds no digit, or the length of `s`.
pub open spec fn digits_end(s: Seq<char>, from: int) -> int
    decreases s.len() - from,
{
    if 0 <= from < s.len() && is_digit_char(s[from]) {
        digits_end(s, from + 1)
    } else {
        from
    }
}

/// A run of digits from `from` up to `to` that stops at `to` is the run that
/// `digits_end` finds.
pub proof fn lemma_digits_end(s: Seq<char>, from: int, to: int)
    requires
        0 <= from <= to <= s.len(),
        forall|i: int| from <= i < to ==> is_digit_char(#[trigger] s[i]),
        to < s.len() ==> !is_digit_char(s[to]),
    ensures
        digits_end(s, from) == to,
    decreases to - from,
{
    if from < to {
        lemma_digits_end(s, from + 1, to);
    }
}

/// The run that `digits_end` finds holds digits only and cannot be extended.
pub proof fn lemma_digits_end_run(s: Seq<char>, from: int)
    requires
        0 <= from <= s.len(),
    ensures
        from <= digits_end(s, from) <= s.len(),
        forall|i: int| from <= i < digits_end(s, from) ==> is_digit_char(#[trigger] s[i]),
        digits_end(s, from) < s.len() ==> !is_digit_char(s[digits_end(s, from)]),
    decreases s.len() - from,
{
    if from < s.len() && is_digit_char(s[from]) {
        lemma_digits_end_run(s, from + 1);
    }
}

/// A longer run of digits spells a number at least as large as any of its prefixes.
pub proof fn lemma_digits_value_prefix(s: Seq<char>, n: int)
    requires
        0 <= n <= s.len(),
    ensures
        digits_value(s.take(n)) <= digits_value(s),
    decreases s.len() - n,
{
    if n < s.len() {
        lemma_digits_value_prefix(s.drop_last(), n);
        assert(s.drop_last().take(n) =~= s.take(n));
    } else {
        assert(s.take(n) =~= s);
    }
}

/// The number that the digits spell, when it fits an `i32`.
pub(crate) fn digits_in_i32(chars: &[char]) -> (r: Option<i32>)
    requires
        all_digits(chars@),
    ensures
        r == (if digits_value(chars@) <= i32::MAX {
            Some(digits_value(chars@) as i32)
        } else {
            None::<i32>
        }),
{
    let mut acc: u64 = 0;
    let mut i: usize = 0;
    while i < chars.len()
        invariant
            i <= chars.len(),
            all_digits(chars@),
            acc == digits_value(chars@.take(i as int)),
            acc <= i32::MAX,
        decreases chars.len() - i,
    {
        let d = digit_of(chars[i]) as u64;
        let next = acc * 10 + d;
        proof {
            assert(chars@.take(i + 1).drop_last() =~= chars@.take(i as int));
            assert(chars@.take(i + 1).last() == chars@[i as int]);
            assert(next == digits_value(chars@.take(i + 1)));
        }
        if next > 2147483647u64 {
            proof {
                lemma_digits_value_prefix(chars@, i + 1);
            }
            return None;
        }
        acc = next;
        i += 1;
    }
    proof {
        assert(chars@.take(i as int) =~= chars@);
    }
    Some(acc as i32)
}

} // verus!
