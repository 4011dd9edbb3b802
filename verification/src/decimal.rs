//! Exact decimal numbers: what a literal such as `3.25` denotes.
//!
//! A decimal is held as the digits before and after the point, with no
//! leading zero before it and no trailing zero after it, so that two decimals
//! are the same number exactly when they hold the same digits.

use crate::text::{
    all_digits, chars_of, digits_end, digits_in_i32, digits_value, is_digit_char,
    lemma_digits_end, lemma_digits_end_run, string_of,
};
use vstd::prelude::*;

verus! {

/// The outcome of ordering two values.
#[derive(Clone, Copy, Debug, PartialEq, Eq, Structural)]
pub enum Comparison {
    Less,
    Equal,
    Greater,
}

/// The digits of a decimal number: those before the point and those after it.
pub struct DecimalModel {
    pub whole: Seq<char>,
    pub frac: Seq<char>,
}

/// Digits only, no zero in front of the whole part, no zero at the end of the
/// fraction. The whole part of a number below one is empty.
pub open spec fn is_canonical(m: DecimalModel) -> bool {
    &&& all_digits(m.whole)
    &&& all_digits(m.frac)
    &&& (m.whole.len() > 0 ==> m.whole[0] != '0')
    &&& (m.frac.len() > 0 ==> m.frac.last() != '0')
}

/// `s` without the zeros at its front.
pub open spec fn strip_leading_zeros(s: Seq<char>) -> Seq<char>
    decreases s.len(),
{
    if s.len() > 0 && s[0] == '0' {
        strip_leading_zeros(s.drop_first())
    } else {
        s
    }
}

/// `s` without the zeros at its end.
pub open spec fn strip_trailing_zeros(s: Seq<char>) -> Seq<char>
    decreases s.len(),
{
    if s.len() > 0 && s.last() == '0' {
        strip_trailing_zeros(s.drop_last())
    } else {
        s
    }
}

/// The decimal that a text spells: one or more digits, a point, and any number
/// of digits. Any other text spells none.
pub open spec fn decimal_of_text(text: Seq<char>) -> Option<DecimalModel> {
    let dot = digits_end(text, 0);
    if dot == 0 || dot >= text.len() || text[dot] != '.' || digits_end(text, dot + 1)
        != text.len() {
        None
    } else {
        Some(
            DecimalModel {
                whole: strip_leading_zeros(text.subrange(0, dot)),
                frac: strip_trailing_zeros(text.subrange(dot + 1, text.len() as int)),
            },
        )
    }
}

/// How a decimal is written: at least one digit on each side of the point.
pub open spec fn text_of_decimal(m: DecimalModel) -> Seq<char> {
    (if m.whole.len() == 0 {
        seq!['0']
    } else {
        m.whole
    }) + seq!['.'] + (if m.frac.len() == 0 {
        seq!['0']
    } else {
        m.frac
    })
}

/// The whole part as an integer, or the largest `i32` where it is larger.
pub open spec fn decimal_trunc(m: DecimalModel) -> int {
    if digits_value(m.whole) <= i32::MAX {
        digits_value(m.whole) as int
    } else {
        i32::MAX as int
    }
}

/// Dictionary order on two runs of characters; a proper prefix comes first.
pub open spec fn lex_compare(a: Seq<char>, b: Seq<char>) -> Comparison
    decreases a.len(),
{
    if a.len() == 0 && b.len() == 0 {
        Comparison::Equal
    } else if a.len() == 0 {
        Comparison::Less
    } else if b.len() == 0 {
        Comparison::Greater
    } else if a[0] < b[0] {
        Comparison::Less
    } else if a[0] > b[0] {
        Comparison::Greater
    } else {
        lex_compare(a.drop_first(), b.drop_first())
    }
}

/// The order of two canonical decimals: by the length of the whole part, then
/// by its digits, then by the digits of the fraction.
pub open spec fn decimal_compare(a: DecimalModel, b: DecimalModel) -> Comparison {
    if a.whole.len() < b.whole.len() {
        Comparison::Less
    } else if a.whole.len() > b.whole.len() {
        Comparison::Greater
    } else {
        match lex_compare(a.whole, b.whole) {
            Comparison::Equal => lex_compare(a.frac, b.frac),
            other => other,
        }
    }
}

/// Two runs compare equal exactly when they are the same run.
pub proof fn lemma_lex_equal(a: Seq<char>, b: Seq<char>)
    ensures
        lex_compare(a, b) == Comparison::Equal <==> a == b,
    decreases a.len(),
{
    if a.len() > 0 && b.len() > 0 && a[0] == b[0] {
        lemma_lex_equal(a.drop_first(), b.drop_first());
        if a.drop_first() == b.drop_first() {
            assert(a =~= seq![a[0]] + a.drop_first());
            assert(b =~= seq![b[0]] + b.drop_first());
        }
    } else if a.len() == 0 && b.len() == 0 {
        assert(a =~= b);
    }
}

/// Two decimals compare equal exactly when they hold the same digits.
pub proof fn lemma_compare_equal(a: DecimalModel, b: DecimalModel)
    ensures
        decimal_compare(a, b) == Comparison::Equal <==> a == b,
{
    lemma_lex_equal(a.whole, b.whole);
    lemma_lex_equal(a.frac, b.frac);
}

/// Dropping a common prefix does not change how two runs compare.
proof fn lemma_lex_skip(a: Seq<char>, b: Seq<char>, n: int)
    requires
        0 <= n <= a.len(),
        n <= b.len(),
        a.take(n) == b.take(n),
    ensures
        lex_compare(a, b) == lex_compare(a.skip(n), b.skip(n)),
    decreases n,
{
    if n == 0 {
        assert(a.skip(0) =~= a);
        assert(b.skip(0) =~= b);
    } else {
        assert(a[0] == a.take(n)[0]);
        assert(b[0] == b.take(n)[0]);
        assert(a.drop_first().take(n - 1) =~= a.take(n).drop_first());
        assert(b.drop_first().take(n - 1) =~= b.take(n).drop_first());
        lemma_lex_skip(a.drop_first(), b.drop_first(), n - 1);
        assert(a.drop_first().skip(n - 1) =~= a.skip(n));
        assert(b.drop_first().skip(n - 1) =~= b.skip(n));
    }
}

proof fn lemma_strip_leading(s: Seq<char>, n: int)
    requires
        0 <= n <= s.len(),
        forall|i: int| 0 <= i < n ==> s[i] == '0',
        n < s.len() ==> s[n] != '0',
    ensures
        strip_leading_zeros(s) == s.skip(n),
    decreases n,
{
    if n == 0 {
        assert(s.skip(0) =~= s);
    } else {
        lemma_strip_leading(s.drop_first(), n - 1);
        assert(s.drop_first().skip(n - 1) =~= s.skip(n));
    }
}

proof fn lemma_strip_trailing(s: Seq<char>, n: int)
    requires
        0 <= n <= s.len(),
        forall|i: int| n <= i < s.len() ==> s[i] == '0',
        n > 0 ==> s[n - 1] != '0',
    ensures
        strip_trailing_zeros(s) == s.take(n),
    decreases s.len() - n,
{
    if n == s.len() {
        assert(s.take(n) =~= s);
    } else {
        lemma_strip_trailing(s.drop_last(), n);
        assert(s.drop_last().take(n) =~= s.take(n));
    }
}

/// Writing a canonical decimal and reading the text back gives the decimal again.
pub proof fn lemma_decimal_round_trip(m: DecimalModel)
    requires
        is_canonical(m),
    ensures
        decimal_of_text(text_of_decimal(m)) == Some(m),
{
    let w = if m.whole.len() == 0 {
        seq!['0']
    } else {
        m.whole
    };
    let f = if m.frac.len() == 0 {
        seq!['0']
    } else {
        m.frac
    };
    let text = text_of_decimal(m);
    let dot = w.len() as int;
    assert(text =~= w + seq!['.'] + f);
    assert(text.len() == w.len() + 1 + f.len());
    assert forall|i: int| 0 <= i < dot implies is_digit_char(#[trigger] text[i]) by {
        assert(text[i] == w[i]);
    }
    assert(text[dot] == '.');
    lemma_digits_end(text, 0, dot);
    assert forall|i: int| dot + 1 <= i < text.len() implies is_digit_char(#[trigger] text[i]) by {
        assert(text[i] == f[i - dot - 1]);
    }
    lemma_digits_end(text, dot + 1, text.len() as int);
    assert(text.subrange(0, dot) =~= w);
    assert(text.subrange(dot + 1, text.len() as int) =~= f);
    if m.whole.len() == 0 {
        lemma_strip_leading(w, 1);
        assert(w.skip(1) =~= m.whole);
    } else {
        lemma_strip_leading(w, 0);
        assert(w.skip(0) =~= m.whole);
    }
    if m.frac.len() == 0 {
        lemma_strip_trailing(f, 0);
        assert(f.take(0) =~= m.frac);
    } else {
        lemma_strip_trailing(f, f.len() as int);
        assert(f.take(f.len() as int) =~= m.frac);
    }
}

/// Ten to the power `k`.
pub open spec fn pow10(k: nat) -> nat
    decreases k,
{
    if k == 0 {
        1
    } else {
        10 * pow10((k - 1) as nat)
    }
}

/// How two integers order.
pub open spec fn order_of(x: int, y: int) -> Comparison {
    if x < y {
        Comparison::Less
    } else if x > y {
        Comparison::Greater
    } else {
        Comparison::Equal
    }
}

/// The number that a decimal denotes, times ten to the power `k`: an integer
/// where `k` is at least the number of digits of the fraction.
pub open spec fn scaled(d: DecimalModel, k: nat) -> nat {
    digits_value(d.whole) * pow10(k) + digits_value(d.frac) * pow10((k - d.frac.len()) as nat)
}

proof fn lemma_pow10_positive(k: nat)
    ensures
        pow10(k) >= 1,
    decreases k,
{
    if k > 0 {
        lemma_pow10_positive((k - 1) as nat);
    }
}

proof fn lemma_pow10_add(a: nat, b: nat)
    ensures
        pow10(a + b) == pow10(a) * pow10(b),
    decreases a,
{
    if a == 0 {
        assert(pow10(a) * pow10(b) == pow10(b)) by (nonlinear_arith)
            requires
                pow10(a) == 1,
        ;
    } else {
        lemma_pow10_add((a - 1) as nat, b);
        let x = pow10((a - 1) as nat);
        let y = pow10(b);
        assert(pow10(a + b) == 10 * pow10((a + b - 1) as nat));
        assert((a - 1) as nat + b == (a + b - 1) as nat);
        assert(10 * (x * y) == (10 * x) * y) by (nonlinear_arith);
    }
}

proof fn lemma_pow10_monotone(a: nat, b: nat)
    requires
        a <= b,
    ensures
        pow10(a) <= pow10(b),
    decreases b,
{
    if a < b {
        lemma_pow10_monotone(a, (b - 1) as nat);
        lemma_pow10_positive((b - 1) as nat);
    }
}

proof fn lemma_value_concat(a: Seq<char>, b: Seq<char>)
    ensures
        digits_value(a + b) == digits_value(a) * pow10(b.len()) + digits_value(b),
    decreases b.len(),
{
    if b.len() == 0 {
        assert(a + b =~= a);
        assert(digits_value(a) * pow10(0) == digits_value(a)) by (nonlinear_arith)
            requires
                pow10(0) == 1,
        ;
    } else {
        let rest = b.drop_last();
        lemma_value_concat(a, rest);
        assert((a + b).drop_last() =~= a + rest);
        assert((a + b).last() == b.last());
        let va = digits_value(a) as int;
        let vr = digits_value(rest) as int;
        let p = pow10(rest.len()) as int;
        let d = crate::text::digit_value(b.last()) as int;
        assert(pow10(b.len()) == 10 * p);
        assert(10 * (va * p + vr) + d == va * (10 * p) + (10 * vr + d)) by (nonlinear_arith);
    }
}

proof fn lemma_value_single(c: char)
    ensures
        digits_value(seq![c]) == crate::text::digit_value(c),
{
    let s = seq![c];
    assert(s.drop_last() =~= Seq::<char>::empty());
    assert(digits_value(s.drop_last()) == 0);
}

proof fn lemma_value_bound(s: Seq<char>)
    requires
        all_digits(s),
    ensures
        digits_value(s) < pow10(s.len()),
    decreases s.len(),
{
    if s.len() > 0 {
        let rest = s.drop_last();
        assert(all_digits(rest)) by {
            assert forall|i: int| 0 <= i < rest.len() implies is_digit_char(#[trigger] rest[i]) by {
                assert(rest[i] == s[i]);
            }
        }
        lemma_value_bound(rest);
        assert(is_digit_char(s[s.len() - 1]));
    }
}

proof fn lemma_value_positive(s: Seq<char>)
    requires
        all_digits(s),
        s.len() > 0,
        s.last() != '0',
    ensures
        digits_value(s) >= 1,
{
    assert(is_digit_char(s[s.len() - 1]));
}

proof fn lemma_value_split(s: Seq<char>)
    requires
        s.len() > 0,
    ensures
        digits_value(s) == crate::text::digit_value(s[0]) * pow10((s.len() - 1) as nat)
            + digits_value(s.drop_first()),
{
    lemma_value_concat(seq![s[0]], s.drop_first());
    lemma_value_single(s[0]);
    assert(s =~= seq![s[0]] + s.drop_first());
}

proof fn lemma_value_leading(s: Seq<char>)
    requires
        all_digits(s),
        s.len() > 0,
        s[0] != '0',
    ensures
        digits_value(s) >= pow10((s.len() - 1) as nat),
{
    lemma_value_split(s);
    assert(is_digit_char(s[0]));
    let d = crate::text::digit_value(s[0]) as int;
    let p = pow10((s.len() - 1) as nat) as int;
    assert(d * p >= p) by (nonlinear_arith)
        requires
            d >= 1,
            p >= 0,
    ;
}

proof fn lemma_rest_digits(s: Seq<char>)
    requires
        all_digits(s),
        s.len() > 0,
    ensures
        all_digits(s.drop_first()),
        is_digit_char(s[0]),
{
    assert forall|i: int| 0 <= i < s.drop_first().len() implies is_digit_char(
        #[trigger] s.drop_first()[i],
    ) by {
        assert(s.drop_first()[i] == s[i + 1]);
    }
}

/// A number with a smaller leading digit is smaller, whatever follows.
proof fn lemma_leading_decides(dx: int, dy: int, p: int, rx: int, ry: int)
    requires
        0 <= dx < dy,
        0 <= rx < p,
        0 <= ry,
    ensures
        dx * p + rx < dy * p + ry,
{
    assert((dx + 1) * p <= dy * p) by (nonlinear_arith)
        requires
            dx + 1 <= dy,
            p >= 0,
    ;
    assert((dx + 1) * p == dx * p + p) by (nonlinear_arith);
}

/// Runs of digits of one length order as the numbers they spell.
proof fn lemma_lex_is_numeric(x: Seq<char>, y: Seq<char>)
    requires
        all_digits(x),
        all_digits(y),
        x.len() == y.len(),
    ensures
        lex_compare(x, y) == order_of(digits_value(x) as int, digits_value(y) as int),
    decreases x.len(),
{
    if x.len() > 0 {
        lemma_rest_digits(x);
        lemma_rest_digits(y);
        lemma_value_split(x);
        lemma_value_split(y);
        lemma_value_bound(x.drop_first());
        lemma_value_bound(y.drop_first());
        let p = pow10((x.len() - 1) as nat) as int;
        let dx = crate::text::digit_value(x[0]) as int;
        let dy = crate::text::digit_value(y[0]) as int;
        let rx = digits_value(x.drop_first()) as int;
        let ry = digits_value(y.drop_first()) as int;
        if x[0] < y[0] {
            lemma_leading_decides(dx, dy, p, rx, ry);
        } else if x[0] > y[0] {
            lemma_leading_decides(dy, dx, p, ry, rx);
        } else {
            lemma_lex_is_numeric(x.drop_first(), y.drop_first());
        }
    }
}

/// The digits of a fraction, filled up with zeros to `k` digits, as a number.
spec fn filled(x: Seq<char>, k: nat) -> int {
    (digits_value(x) * pow10((k - x.len()) as nat)) as int
}

proof fn lemma_filled_bound(x: Seq<char>, k: nat)
    requires
        all_digits(x),
        x.len() <= k,
    ensures
        0 <= filled(x, k) < pow10(k),
{
    lemma_value_bound(x);
    lemma_pow10_add(x.len(), (k - x.len()) as nat);
    lemma_pow10_positive((k - x.len()) as nat);
    let v = digits_value(x) as int;
    let a = pow10(x.len()) as int;
    let b = pow10((k - x.len()) as nat) as int;
    assert(v * b < a * b) by (nonlinear_arith)
        requires
            0 <= v < a,
            b >= 1,
    ;
    assert(v * b >= 0) by (nonlinear_arith)
        requires
            v >= 0,
            b >= 0,
    ;
}

proof fn lemma_filled_split(x: Seq<char>, k: nat)
    requires
        0 < x.len() <= k,
    ensures
        filled(x, k) == crate::text::digit_value(x[0]) * pow10((k - 1) as nat) + filled(
            x.drop_first(),
            (k - 1) as nat,
        ),
{
    lemma_value_split(x);
    let n = (x.len() - 1) as nat;
    let pad = (k - x.len()) as nat;
    lemma_pow10_add(n, pad);
    assert(n + pad == (k - 1) as nat);
    let d = crate::text::digit_value(x[0]) as int;
    let pn = pow10(n) as int;
    let pp = pow10(pad) as int;
    let r = digits_value(x.drop_first()) as int;
    assert((d * pn + r) * pp == d * (pn * pp) + r * pp) by (nonlinear_arith);
}

/// Fractions without zeros at the end order as the numbers they spell after
/// the point.
proof fn lemma_frac_is_numeric(x: Seq<char>, y: Seq<char>, k: nat)
    requires
        all_digits(x),
        all_digits(y),
        x.len() <= k,
        y.len() <= k,
        x.len() > 0 ==> x.last() != '0',
        y.len() > 0 ==> y.last() != '0',
    ensures
        lex_compare(x, y) == order_of(filled(x, k), filled(y, k)),
    decreases x.len(),
{
    if x.len() == 0 && y.len() == 0 {
    } else if x.len() == 0 {
        lemma_value_positive(y);
        lemma_pow10_positive((k - y.len()) as nat);
        let v = digits_value(y) as int;
        let b = pow10((k - y.len()) as nat) as int;
        assert(v * b >= 1) by (nonlinear_arith)
            requires
                v >= 1,
                b >= 1,
        ;
        assert(digits_value(x) == 0);
        assert(filled(x, k) == 0) by (nonlinear_arith)
            requires
                filled(x, k) == 0 * pow10((k - x.len()) as nat),
        ;
    } else if y.len() == 0 {
        lemma_value_positive(x);
        lemma_pow10_positive((k - x.len()) as nat);
        let v = digits_value(x) as int;
        let b = pow10((k - x.len()) as nat) as int;
        assert(v * b >= 1) by (nonlinear_arith)
            requires
                v >= 1,
                b >= 1,
        ;
        assert(digits_value(y) == 0);
        assert(filled(y, k) == 0) by (nonlinear_arith)
            requires
                filled(y, k) == 0 * pow10((k - y.len()) as nat),
        ;
    } else {
        lemma_rest_digits(x);
        lemma_rest_digits(y);
        lemma_filled_split(x, k);
        lemma_filled_split(y, k);
        lemma_filled_bound(x.drop_first(), (k - 1) as nat);
        lemma_filled_bound(y.drop_first(), (k - 1) as nat);
        let p = pow10((k - 1) as nat) as int;
        let dx = crate::text::digit_value(x[0]) as int;
        let dy = crate::text::digit_value(y[0]) as int;
        let rx = filled(x.drop_first(), (k - 1) as nat);
        let ry = filled(y.drop_first(), (k - 1) as nat);
        if x[0] < y[0] {
            lemma_leading_decides(dx, dy, p, rx, ry);
        } else if x[0] > y[0] {
            lemma_leading_decides(dy, dx, p, ry, rx);
        } else {
            if x.drop_first().len() > 0 {
                assert(x.drop_first().last() == x.last());
            }
            if y.drop_first().len() > 0 {
                assert(y.drop_first().last() == y.last());
            }
            lemma_frac_is_numeric(x.drop_first(), y.drop_first(), (k - 1) as nat);
        }
    }
}

/// The order of decimals is the order of the numbers they denote: two
/// canonical decimals compare as their values do, both scaled by the same
/// power of ten to integers.
pub proof fn lemma_compare_is_numeric(a: DecimalModel, b: DecimalModel, k: nat)
    requires
        is_canonical(a),
        is_canonical(b),
        a.frac.len() <= k,
        b.frac.len() <= k,
    ensures
        decimal_compare(a, b) == order_of(scaled(a, k) as int, scaled(b, k) as int),
{
    let p = pow10(k) as int;
    let wa = digits_value(a.whole) as int;
    let wb = digits_value(b.whole) as int;
    let fa = filled(a.frac, k);
    let fb = filled(b.frac, k);
    lemma_filled_bound(a.frac, k);
    lemma_filled_bound(b.frac, k);
    lemma_value_bound(a.whole);
    lemma_value_bound(b.whole);
    if a.whole.len() < b.whole.len() {
        lemma_value_leading(b.whole);
        lemma_pow10_monotone(a.whole.len(), (b.whole.len() - 1) as nat);
        lemma_leading_decides(wa, wb, p, fa, fb);
    } else if a.whole.len() > b.whole.len() {
        lemma_value_leading(a.whole);
        lemma_pow10_monotone(b.whole.len(), (a.whole.len() - 1) as nat);
        lemma_leading_decides(wb, wa, p, fb, fa);
    } else {
        lemma_lex_is_numeric(a.whole, b.whole);
        if wa < wb {
            lemma_leading_decides(wa, wb, p, fa, fb);
        } else if wa > wb {
            lemma_leading_decides(wb, wa, p, fb, fa);
        } else {
            lemma_frac_is_numeric(a.frac, b.frac, k);
        }
    }
}

/// The whole part of a decimal is the number it denotes, rounded down.
pub proof fn lemma_whole_is_floor(d: DecimalModel, k: nat)
    requires
        is_canonical(d),
        d.frac.len() <= k,
    ensures
        digits_value(d.whole) * pow10(k) <= scaled(d, k) < (digits_value(d.whole) + 1) * pow10(k),
{
    lemma_filled_bound(d.frac, k);
    let w = digits_value(d.whole) as int;
    let p = pow10(k) as int;
    assert((w + 1) * p == w * p + p) by (nonlinear_arith);
}

/// An exact decimal number, always canonical.
#[derive(Debug)]
pub struct Decimal {
    whole: Vec<char>,
    frac: Vec<char>,
}

impl View for Decimal {
    type V = DecimalModel;

    closed spec fn view(&self) -> DecimalModel {
        DecimalModel { whole: self.whole@, frac: self.frac@ }
    }
}

/// The characters of `src` from `from` up to `to`.
fn copy_chars(src: &[char], from: usize, to: usize) -> (out: Vec<char>)
    requires
        from <= to <= src.len(),
    ensures
        out@ == src@.subrange(from as int, to as int),
{
    let mut out: Vec<char> = Vec::new();
    let mut i: usize = from;
    while i < to
        invariant
            from <= i <= to <= src.len(),
            out@ == src@.subrange(from as int, i as int),
        decreases to - i,
    {
        out.push(src[i]);
        proof {
            assert(out@ =~= src@.subrange(from as int, i + 1));
        }
        i += 1;
    }
    out
}

/// Where the run of digits that starts at `from` ends.
fn run_end(src: &[char], from: usize) -> (end: usize)
    requires
        from <= src.len(),
    ensures
        end == digits_end(src@, from as int),
        from <= end <= src.len(),
{
    let mut i: usize = from;
    while i < src.len() && src[i] >= '0' && src[i] <= '9'
        invariant
            from <= i <= src.len(),
            digits_end(src@, from as int) == digits_end(src@, i as int),
        decreases src.len() - i,
    {
        i += 1;
    }
    i
}

/// How two runs of characters order in the dictionary.
pub fn lex_order(a: &[char], b: &[char]) -> (r: Comparison)
    ensures
        r == lex_compare(a@, b@),
{
    let mut i: usize = 0;
    while i < a.len() && i < b.len()
        invariant
            i <= a.len(),
            i <= b.len(),
            a@.take(i as int) == b@.take(i as int),
        decreases a.len() - i,
    {
        proof {
            lemma_lex_skip(a@, b@, i as int);
        }
        if a[i] < b[i] {
            return Comparison::Less;
        }
        if a[i] > b[i] {
            return Comparison::Greater;
        }
        proof {
            assert(a@.take(i + 1) =~= a@.take(i as int).push(a@[i as int]));
            assert(b@.take(i + 1) =~= b@.take(i as int).push(b@[i as int]));
        }
        i += 1;
    }
    proof {
        lemma_lex_skip(a@, b@, i as int);
    }
    if i < b.len() {
        Comparison::Less
    } else if i < a.len() {
        Comparison::Greater
    } else {
        Comparison::Equal
    }
}

impl Decimal {
    #[verifier::type_invariant]
    /// Every decimal is canonical.
    spec fn canonical(&self) -> bool {
        is_canonical(self@)
    }

    /// Reads a decimal from its digits and point.
    pub fn from_chars(text: &[char]) -> (r: Option<Decimal>)
        ensures
            match r {
                Some(d) => decimal_of_text(text@) == Some(d@) && is_canonical(d@),
                None => decimal_of_text(text@) is None,
            },
    {
        let dot = run_end(text, 0);
        if dot == 0 || dot >= text.len() || text[dot] != '.' {
            return None;
        }
        let end = run_end(text, dot + 1);
        if end != text.len() {
            return None;
        }
        proof {
            lemma_digits_end_run(text@, 0);
            lemma_digits_end_run(text@, dot + 1);
        }
        let mut first: usize = 0;
        while first < dot && text[first] == '0'
            invariant
                first <= dot < text.len(),
                forall|i: int| 0 <= i < first ==> text@[i] == '0',
            decreases dot - first,
        {
            first += 1;
        }
        let mut last: usize = end;
        while last > dot + 1 && text[last - 1] == '0'
            invariant
                dot + 1 <= last <= end,
                end == text.len(),
                forall|i: int| last <= i < end ==> text@[i] == '0',
            decreases last,
        {
            last -= 1;
        }
        let whole = copy_chars(text, first, dot);
        let frac = copy_chars(text, dot + 1, last);
        proof {
            let w = text@.subrange(0, dot as int);
            let f = text@.subrange(dot + 1, end as int);
            lemma_strip_leading(w, first as int);
            assert(w.skip(first as int) =~= whole@);
            lemma_strip_trailing(f, last - dot - 1);
            assert(f.take(last - dot - 1) =~= frac@);
            assert(all_digits(whole@)) by {
                assert forall|i: int| 0 <= i < whole@.len() implies is_digit_char(
                    #[trigger] whole@[i],
                ) by {
                    assert(whole@[i] == text@[first + i]);
                }
            }
            assert(all_digits(frac@)) by {
                assert forall|i: int| 0 <= i < frac@.len() implies is_digit_char(
                    #[trigger] frac@[i],
                ) by {
                    assert(frac@[i] == text@[dot + 1 + i]);
                }
            }
        }
        Some(Decimal { whole, frac })
    }

    /// Reads a decimal from a string such as `"3.25"`.
    pub fn parse(text: &str) -> (r: Option<Decimal>)
        ensures
            match r {
                Some(d) => decimal_of_text(text@) == Some(d@) && is_canonical(d@),
                None => decimal_of_text(text@) is None,
            },
    {
        let chars = chars_of(text);
        Decimal::from_chars(chars.as_slice())
    }

    /// Appends the written form of the decimal to `out`.
    pub fn write_to(&self, out: &mut Vec<char>)
        ensures
            final(out)@ == old(out)@ + text_of_decimal(self@),
    {
        if self.whole.len() == 0 {
            out.push('0');
        } else {
            let mut i: usize = 0;
            while i < self.whole.len()
                invariant
                    i <= self.whole.len(),
                    out@ == old(out)@ + self.whole@.take(i as int),
                decreases self.whole.len() - i,
            {
                out.push(self.whole[i]);
                proof {
                    assert(self.whole@.take(i + 1) =~= self.whole@.take(i as int).push(
                        self.whole@[i as int],
                    ));
                }
                i += 1;
            }
            proof {
                assert(self.whole@.take(i as int) =~= self.whole@);
            }
        }
        out.push('.');
        let ghost mid = out@;
        if self.frac.len() == 0 {
            out.push('0');
        } else {
            let mut i: usize = 0;
            while i < self.frac.len()
                invariant
                    i <= self.frac.len(),
                    out@ == mid + self.frac@.take(i as int),
                decreases self.frac.len() - i,
            {
                out.push(self.frac[i]);
                proof {
                    assert(self.frac@.take(i + 1) =~= self.frac@.take(i as int).push(
                        self.frac@[i as int],
                    ));
                }
                i += 1;
            }
            proof {
                assert(self.frac@.take(i as int) =~= self.frac@);
            }
        }
        proof {
            assert(out@ =~= old(out)@ + text_of_decimal(self@));
        }
    }

    /// The written form of the decimal.
    pub fn to_string(&self) -> (s: String)
        ensures
            s@ == text_of_decimal(self@),
    {
        let mut out: Vec<char> = Vec::new();
        self.write_to(&mut out);
        proof {
            assert(out@ =~= text_of_decimal(self@));
        }
        string_of(out.as_slice())
    }

    /// The whole part as an `i32`, or `i32::MAX` where it does not fit.
    pub fn trunc(&self) -> (n: i32)
        ensures
            n == decimal_trunc(self@),
    {
        proof {
            use_type_invariant(self);
        }
        match digits_in_i32(self.whole.as_slice()) {
            Some(n) => n,
            None => i32::MAX,
        }
    }

    /// How this decimal orders against `other`.
    pub fn compare(&self, other: &Decimal) -> (r: Comparison)
        ensures
            r == decimal_compare(self@, other@),
    {
        if self.whole.len() < other.whole.len() {
            Comparison::Less
        } else if self.whole.len() > other.whole.len() {
            Comparison::Greater
        } else {
            match lex_order(self.whole.as_slice(), other.whole.as_slice()) {
                Comparison::Equal => lex_order(self.frac.as_slice(), other.frac.as_slice()),
                other_order => other_order,
            }
        }
    }
}

impl Clone for Decimal {
    fn clone(&self) -> (res: Self)
        ensures
            res@ == self@,
    {
        proof {
            use_type_invariant(self);
        }
        let whole = copy_chars(self.whole.as_slice(), 0, self.whole.len());
        let frac = copy_chars(self.frac.as_slice(), 0, self.frac.len());
        proof {
            assert(whole@ =~= self.whole@);
            assert(frac@ =~= self.frac@);
        }
        Decimal { whole, frac }
    }
}

impl PartialEq for Decimal {
    fn eq(&self, other: &Self) -> (r: bool) {
        proof {
            lemma_compare_equal(self@, other@);
        }
        match self.compare(other) {
            Comparison::Equal => true,
            _ => false,
        }
    }
}

impl vstd::std_specs::cmp::PartialEqSpecImpl for Decimal {
    open spec fn obeys_eq_spec() -> bool {
        true
    }

    open spec fn eq_spec(&self, other: &Self) -> bool {
        self@ == other@
    }
}

} // verus!
