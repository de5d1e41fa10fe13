//! Decimal strings to base-256 digits and back, by repeated long division.

use crate::radix::{
    be_value, canonical_digits, digits_below, le_digits, le_value, lemma_be_value_positive,
    lemma_be_value_reverse, lemma_canonical_digits_value,
};
use crate::symbolic_number::{lemma_product_fits, product_digits, SymbolicNumber};
use vstd::arithmetic::div_mod::{lemma_fundamental_div_mod, lemma_fundamental_div_mod_converse};
use vstd::prelude::*;
use vstd::string::StringExecFns;

verus! {

/// The character is one of `0` to `9`.
pub open spec fn is_decimal_digit(c: char) -> bool {
    48 <= c as int <= 57
}

/// The number that a decimal digit character stands for.
pub open spec fn digit_of(c: char) -> u8 {
    (c as int - 48) as u8
}

/// The decimal digit characters of a text as numbers, in the order of the
/// text; every other character is passed over.
pub open spec fn decimal_digits(s: Seq<char>) -> Seq<u8>
    decreases s.len(),
{
    if s.len() == 0 {
        Seq::empty()
    } else if is_decimal_digit(s.last()) {
        decimal_digits(s.drop_last()).push(digit_of(s.last()))
    } else {
        decimal_digits(s.drop_last())
    }
}

/// The number that the decimal digits of a text denote; a text without
/// digits denotes zero.
pub open spec fn decimal_value(s: Seq<char>) -> nat {
    be_value(decimal_digits(s), 10)
}

/// Decimal digits are below ten.
pub proof fn lemma_decimal_digits_below(s: Seq<char>)
    ensures
        digits_below(decimal_digits(s), 10),
    decreases s.len(),
{
    if s.len() > 0 {
        lemma_decimal_digits_below(s.drop_last());
    }
}

/// The number of a decimal digit character, and nothing for any other
/// character.
pub fn digit_value(c: char) -> (digit: Option<u8>)
    ensures
        digit == if is_decimal_digit(c) {
            Some(digit_of(c))
        } else {
            None
        },
{
    let code: u32 = c as u32;
    if 48 <= code && code <= 57 {
        Some((code - 48) as u8)
    } else {
        None
    }
}

/// The decimal digits of a text, most significant first.
pub fn collect_decimal_digits(s: &str) -> (digits: Vec<u8>)
    ensures
        digits@ == decimal_digits(s@),
{
    let mut digits: Vec<u8> = Vec::new();
    for c in it: s.chars()
        invariant
            it.seq() == s@,
            digits@ == decimal_digits(s@.take(it.index() as int)),
    {
        proof {
            let upto = s@.take(it.index() + 1);
            assert(upto.drop_last() =~= s@.take(it.index() as int));
            assert(upto.last() == c);
        }
        match digit_value(c) {
            Some(digit) => {
                digits.push(digit);
            },
            None => {},
        }
    }
    assert(s@.take(s@.len() as int) =~= s@);
    digits
}

/// The digits do not begin with a zero.
pub open spec fn no_leading_zero(s: Seq<u8>) -> bool {
    s.len() > 0 ==> s[0] != 0
}

/// One long division: the digits of a number in `base`, most significant
/// first, divided by `divisor`. Returns the digits of the quotient in the
/// same base, without leading zeros (none at all when it is zero), and the
/// remainder.
pub fn divide_digits(digits: &Vec<u8>, base: u32, divisor: u32) -> (result: (Vec<u8>, u8))
    requires
        2 <= base <= 256,
        1 <= divisor <= 256,
        digits_below(digits@, base as nat),
    ensures
        be_value(result.0@, base as nat) == be_value(digits@, base as nat) / divisor as nat,
        result.1 as nat == be_value(digits@, base as nat) % divisor as nat,
        digits_below(result.0@, base as nat),
        no_leading_zero(result.0@),
        result.0@.len() <= digits@.len(),
{
    let len: usize = digits.len();
    let mut quotient: Vec<u8> = Vec::new();
    let mut remainder: u32 = 0;
    let mut i: usize = 0;
    assert(digits@.take(0) =~= Seq::<u8>::empty());
    assert(be_value(quotient@, base as nat) * divisor == 0) by (nonlinear_arith)
        requires
            be_value(quotient@, base as nat) == 0,
    ;
    while i < len
        invariant
            2 <= base <= 256,
            1 <= divisor <= 256,
            len == digits@.len(),
            i <= len,
            digits_below(digits@, base as nat),
            digits_below(quotient@, base as nat),
            no_leading_zero(quotient@),
            quotient@.len() <= i,
            remainder < divisor,
            be_value(digits@.take(i as int), base as nat) == be_value(quotient@, base as nat)
                * divisor + remainder,
        decreases len - i,
    {
        let digit: u32 = digits[i] as u32;
        assert(digits@[i as int] as nat == digit);
        assert(remainder * base + digit < divisor * base) by (nonlinear_arith)
            requires
                remainder < divisor,
                digit < base,
        ;
        assert(divisor * base <= 65536) by (nonlinear_arith)
            requires
                divisor <= 256,
                base <= 256,
        ;
        let number: u32 = remainder * base + digit;
        let q: u32 = number / divisor;
        let r: u32 = number % divisor;
        proof {
            let upto = digits@.take(i + 1);
            assert(upto.drop_last() =~= digits@.take(i as int));
            assert(upto.last() == digits@[i as int]);
            let before = be_value(quotient@, base as nat) as int;
            let seen = be_value(digits@.take(i as int), base as nat) as int;
            assert(be_value(upto, base as nat) == seen * base + digit);
            assert(seen == before * divisor + remainder);
            let b = base as int;
            let d = divisor as int;
            assert(number == d * q + r) by {
                lemma_fundamental_div_mod(number as int, d);
            }
            assert(q < b) by (nonlinear_arith)
                requires
                    number == d * q + r,
                    number < d * b,
                    r >= 0,
                    d > 0,
            ;
            assert((before * d + remainder) * b + digit == (before * b + q) * d + r)
                by (nonlinear_arith)
                requires
                    remainder * b + digit == d * q + r,
            ;
            if quotient@.len() > 0 || q != 0 {
                let longer = quotient@.push(q as u8);
                assert(longer.drop_last() =~= quotient@);
                assert(longer.last() == q as u8);
                assert(be_value(longer, base as nat) == before * b + q);
            } else {
                assert(before == 0);
                assert((before * b + q) * d == 0) by (nonlinear_arith)
                    requires
                        before == 0,
                        q == 0,
                ;
                assert(before * d == 0) by (nonlinear_arith)
                    requires
                        before == 0,
                ;
            }
        }
        if quotient.len() > 0 || q != 0 {
            quotient.push(q as u8);
        }
        remainder = r;
        i += 1;
    }
    proof {
        assert(digits@.take(len as int) =~= digits@);
        let whole = be_value(digits@, base as nat) as int;
        let part = be_value(quotient@, base as nat) as int;
        lemma_fundamental_div_mod_converse(whole, divisor as int, part, remainder as int);
    }
    (quotient, remainder as u8)
}

/// Reads the decimal digits of a text as a number, in its shortest base-256
/// digits. Characters that are no decimal digits are passed over, and a text
/// without digits gives zero.
pub fn string_to_symbolic_number(s: &str) -> (number: SymbolicNumber)
    ensures
        number.digits@ == canonical_digits(decimal_value(s@), 256),
        number.value() == decimal_value(s@),
        number.wf(),
{
    let mut decimal: Vec<u8> = collect_decimal_digits(s);
    let mut digits: Vec<u8> = Vec::new();
    let ghost goal = decimal_value(s@);
    proof {
        lemma_decimal_digits_below(s@);
        lemma_canonical_digits_value(goal);
    }
    if decimal.len() == 0 {
        digits.push(0u8);
        assert(digits@ =~= seq![0u8]);
        return SymbolicNumber { digits };
    }
    while decimal.len() > 0
        invariant
            digits_below(decimal@, 10),
            digits@.len() == 0 ==> decimal@.len() > 0 && be_value(decimal@, 10) == goal,
            digits@.len() > 0 ==> no_leading_zero(decimal@) && digits@ + le_digits(
                be_value(decimal@, 10),
                256,
            ) == canonical_digits(goal, 256),
        decreases be_value(decimal@, 10), decimal@.len(),
    {
        let ghost rest = be_value(decimal@, 10);
        let (quotient, remainder) = divide_digits(&decimal, 10, 256);
        proof {
            if no_leading_zero(decimal@) {
                lemma_be_value_positive(decimal@, 10);
            }
            if quotient@.len() > 0 {
                lemma_be_value_positive(quotient@, 10);
            }
            assert(digits@.push(remainder) + le_digits(rest / 256, 256) =~= digits@ + (
            seq![remainder] + le_digits(rest / 256, 256)));
            if rest == 0 {
                assert(digits@.push(remainder) =~= seq![0u8]);
            }
        }
        digits.push(remainder);
        decimal = quotient;
    }
    proof {
        assert(digits@ + le_digits(0, 256) =~= digits@);
    }
    SymbolicNumber { digits }
}

/// The character of a decimal digit.
pub open spec fn digit_char(d: u8) -> char {
    (d as int + 48) as char
}

/// The decimal numeral of a number, most significant digit first and
/// without leading zeros; zero is written `0`.
pub open spec fn decimal_chars(v: nat) -> Seq<char>
    decreases v,
{
    if v < 10 {
        seq![digit_char(v as u8)]
    } else {
        decimal_chars(v / 10).push(digit_char((v % 10) as u8))
    }
}

/// Digits that stand least significant first, written most significant
/// first.
pub open spec fn spelled(s: Seq<u8>) -> Seq<char>
    decreases s.len(),
{
    if s.len() == 0 {
        Seq::empty()
    } else {
        spelled(s.drop_first()).push(digit_char(s[0]))
    }
}

/// The numeral of a number spells its canonical decimal digits.
pub proof fn lemma_spelled_canonical(v: nat)
    ensures
        spelled(canonical_digits(v, 10)) == decimal_chars(v),
    decreases v,
{
    if v == 0 {
        let zero = seq![0u8];
        assert(zero.drop_first() =~= Seq::<u8>::empty());
        assert(spelled(zero) =~= seq![digit_char(0u8)]) by {
            reveal_with_fuel(spelled, 2);
        }
    } else {
        let all = le_digits(v, 10);
        let rest = le_digits(v / 10, 10);
        assert(all == seq![(v % 10) as u8] + rest);
        assert(all.drop_first() =~= rest);
        assert(spelled(all) == spelled(rest).push(digit_char((v % 10) as u8)));
        if v < 10 {
            assert(v / 10 == 0);
            assert(rest =~= Seq::<u8>::empty());
            assert(spelled(rest) =~= Seq::<char>::empty());
            assert(spelled(all) =~= seq![digit_char(v as u8)]);
        } else {
            lemma_spelled_canonical(v / 10);
        }
    }
}

/// The one-character text of a decimal digit.
pub fn digit_text(d: u8) -> (text: &'static str)
    requires
        d < 10,
    ensures
        text@ == seq![digit_char(d)],
{
    proof {
        reveal_strlit("0");
        reveal_strlit("1");
        reveal_strlit("2");
        reveal_strlit("3");
        reveal_strlit("4");
        reveal_strlit("5");
        reveal_strlit("6");
        reveal_strlit("7");
        reveal_strlit("8");
        reveal_strlit("9");
    }
    let text = if d == 0 {
        "0"
    } else if d == 1 {
        "1"
    } else if d == 2 {
        "2"
    } else if d == 3 {
        "3"
    } else if d == 4 {
        "4"
    } else if d == 5 {
        "5"
    } else if d == 6 {
        "6"
    } else if d == 7 {
        "7"
    } else if d == 8 {
        "8"
    } else {
        "9"
    };
    assert(text@ =~= seq![digit_char(d)]);
    text
}

/// Writes a number as its decimal numeral. Most significant zero digits do
/// not show, and a number without digits is written `0`.
pub fn symbolic_number_to_string(n: &SymbolicNumber) -> (text: String)
    ensures
        text@ == decimal_chars(n.value()),
{
    let len: usize = n.digits.len();
    let ghost goal = n.value();
    let mut work: Vec<u8> = Vec::with_capacity(len);
    let mut i: usize = len;
    while i > 0
        invariant
            len == n.digits@.len(),
            i <= len,
            work@ == n.digits@.subrange(i as int, len as int).reverse(),
        decreases i,
    {
        i -= 1;
        proof {
            let longer = n.digits@.subrange(i as int, len as int);
            assert(longer.reverse() =~= n.digits@.subrange(i + 1, len as int).reverse().push(
                n.digits@[i as int],
            ));
        }
        work.push(n.digits[i]);
    }
    proof {
        assert(n.digits@.subrange(0, len as int) =~= n.digits@);
        lemma_be_value_reverse(n.digits@);
        assert(digits_below(work@, 256));
    }
    let mut result: Vec<u8> = Vec::new();
    if len == 0 {
        result.push(0u8);
        assert(result@ =~= canonical_digits(goal, 10));
    }
    while work.len() > 0
        invariant
            digits_below(work@, 256),
            digits_below(result@, 10),
            result@.len() == 0 ==> work@.len() > 0 && be_value(work@, 256) == goal,
            result@.len() > 0 ==> no_leading_zero(work@) && result@ + le_digits(
                be_value(work@, 256),
                10,
            ) == canonical_digits(goal, 10),
        decreases be_value(work@, 256), work@.len(),
    {
        let ghost rest = be_value(work@, 256);
        let (quotient, remainder) = divide_digits(&work, 256, 10);
        proof {
            if no_leading_zero(work@) {
                lemma_be_value_positive(work@, 256);
            }
            if quotient@.len() > 0 {
                lemma_be_value_positive(quotient@, 256);
            }
            assert(result@.push(remainder) + le_digits(rest / 10, 10) =~= result@ + (
            seq![remainder] + le_digits(rest / 10, 10)));
            if rest == 0 {
                assert(result@.push(remainder) =~= seq![0u8]);
            }
        }
        result.push(remainder);
        work = quotient;
    }
    proof {
        assert(result@ + le_digits(0, 10) =~= result@);
        lemma_spelled_canonical(goal);
    }
    let count: usize = result.len();
    let mut text: String = String::new();
    let mut k: usize = count;
    assert(result@.subrange(count as int, count as int) =~= Seq::<u8>::empty());
    while k > 0
        invariant
            count == result@.len(),
            k <= count,
            digits_below(result@, 10),
            text@ == spelled(result@.subrange(k as int, count as int)),
        decreases k,
    {
        k -= 1;
        proof {
            let longer = result@.subrange(k as int, count as int);
            assert(longer.drop_first() =~= result@.subrange(k + 1, count as int));
            assert(longer[0] == result@[k as int]);
        }
        assert((result@[k as int] as nat) < 10);
        text.append(digit_text(result[k]));
        assert(text@ =~= spelled(result@.subrange(k as int, count as int)));
    }
    assert(result@.subrange(0, count as int) =~= result@);
    text
}

/// Reading the numeral of a number gives the number back.
pub proof fn lemma_numeral_round_trip(v: nat)
    ensures
        decimal_digits(decimal_chars(v)).len() == decimal_chars(v).len(),
        decimal_value(decimal_chars(v)) == v,
    decreases v,
{
    let text = decimal_chars(v);
    if v < 10 {
        let c = digit_char(v as u8);
        assert(text.drop_last() =~= Seq::<char>::empty());
        assert(text.last() == c);
        assert(is_decimal_digit(c) && digit_of(c) == v);
        assert(decimal_digits(text.drop_last()) =~= Seq::<u8>::empty());
        let digits = decimal_digits(text);
        assert(digits =~= seq![v as u8]);
        assert(digits.drop_last() =~= Seq::<u8>::empty());
        assert(be_value(digits.drop_last(), 10) == 0);
        assert(digits.last() == v as u8);
    } else {
        let c = digit_char((v % 10) as u8);
        lemma_numeral_round_trip(v / 10);
        assert(text.drop_last() =~= decimal_chars(v / 10));
        assert(text.last() == c);
        assert(is_decimal_digit(c) && digit_of(c) == v % 10);
        let digits = decimal_digits(text);
        assert(digits == decimal_digits(decimal_chars(v / 10)).push((v % 10) as u8));
        assert(digits.drop_last() =~= decimal_digits(decimal_chars(v / 10)));
        assert(digits.last() == (v % 10) as u8);
    }
}

/// Numerals that are read, multiplied and written again give the numeral of
/// the product: for any two numbers, the digits that reading their numerals
/// yields have a product whose numeral is that of the product of the
/// numbers.
pub proof fn lemma_product_numeral(x: nat, y: nat)
    ensures
        decimal_chars(
            le_value(
                product_digits(
                    canonical_digits(decimal_value(decimal_chars(x)), 256),
                    canonical_digits(decimal_value(decimal_chars(y)), 256),
                ),
            ),
        ) == decimal_chars(x * y),
{
    lemma_numeral_round_trip(x);
    lemma_numeral_round_trip(y);
    lemma_canonical_digits_value(x);
    lemma_canonical_digits_value(y);
    lemma_product_fits(
        canonical_digits(x, 256),
        canonical_digits(y, 256),
    );
}

/// A character that is no decimal digit may be put anywhere into a text
/// without changing what the text reads as.
pub proof fn lemma_other_characters_ignored(s: Seq<char>, at: int, c: char)
    requires
        0 <= at <= s.len(),
        !is_decimal_digit(c),
    ensures
        decimal_digits(s.insert(at, c)) == decimal_digits(s),
        decimal_value(s.insert(at, c)) == decimal_value(s),
    decreases s.len(),
{
    let longer = s.insert(at, c);
    if at == s.len() {
        assert(longer.drop_last() =~= s);
    } else {
        lemma_other_characters_ignored(s.drop_last(), at, c);
        assert(longer.drop_last() =~= s.drop_last().insert(at, c));
        assert(longer.last() == s.last());
    }
}

/// Digits with their leading zeros taken off.
pub open spec fn strip_zeros(d: Seq<u8>) -> Seq<u8>
    decreases d.len(),
{
    if d.len() > 0 && d[0] == 0 {
        strip_zeros(d.drop_first())
    } else {
        d
    }
}

/// The canonical numeral of a text: its decimal digits without leading
/// zeros, or `0` when nothing is left.
pub open spec fn canonical_numeral(s: Seq<char>) -> Seq<char> {
    let kept = strip_zeros(decimal_digits(s));
    if kept.len() == 0 {
        seq![digit_char(0u8)]
    } else {
        Seq::new(kept.len(), |i: int| digit_char(kept[i]))
    }
}

/// A zero in front of digits does not change the number.
pub proof fn lemma_be_value_leading_zero(d: Seq<u8>, base: nat)
    ensures
        be_value(seq![0u8] + d, base) == be_value(d, base),
    decreases d.len(),
{
    let longer = seq![0u8] + d;
    if d.len() == 0 {
        assert(longer.drop_last() =~= Seq::<u8>::empty());
        assert(be_value(longer.drop_last(), base) * base == 0) by (nonlinear_arith)
            requires
                be_value(longer.drop_last(), base) == 0,
        ;
    } else {
        lemma_be_value_leading_zero(d.drop_last(), base);
        assert(longer.drop_last() =~= seq![0u8] + d.drop_last());
        assert(longer.last() == d.last());
    }
}

/// Taking off leading zeros keeps the number and the bound on the digits,
/// and leaves digits that do not begin with a zero.
pub proof fn lemma_strip_zeros(d: Seq<u8>, base: nat)
    requires
        digits_below(d, base),
    ensures
        be_value(strip_zeros(d), base) == be_value(d, base),
        digits_below(strip_zeros(d), base),
        no_leading_zero(strip_zeros(d)),
    decreases d.len(),
{
    if d.len() > 0 && d[0] == 0 {
        let rest = d.drop_first();
        assert forall|i: int| 0 <= i < rest.len() implies (#[trigger] rest[i] as nat) < base by {
            assert(rest[i] == d[i + 1]);
        }
        lemma_strip_zeros(rest, base);
        lemma_be_value_leading_zero(rest, base);
        assert(seq![0u8] + rest =~= d);
    }
}

/// Decimal digits that do not begin with a zero are the numeral of the
/// number they denote.
pub proof fn lemma_numeral_of_digits(d: Seq<u8>)
    requires
        d.len() > 0,
        d[0] != 0,
        digits_below(d, 10),
    ensures
        decimal_chars(be_value(d, 10)) == Seq::new(d.len(), |i: int| digit_char(d[i])),
    decreases d.len(),
{
    let v = be_value(d, 10);
    let front = d.drop_last();
    let x = d.last();
    assert((d[d.len() - 1] as nat) < 10);
    if front.len() == 0 {
        assert(be_value(front, 10) == 0);
        assert(v == x);
        assert(decimal_chars(v) =~= Seq::new(d.len(), |i: int| digit_char(d[i])));
    } else {
        assert forall|i: int| 0 <= i < front.len() implies (#[trigger] front[i] as nat) < 10 by {
            assert(front[i] == d[i]);
        }
        lemma_numeral_of_digits(front);
        lemma_be_value_positive(front, 10);
        let high = be_value(front, 10);
        assert(v == high * 10 + x);
        assert(v / 10 == high && v % 10 == x as nat) by {
            lemma_fundamental_div_mod_converse(v as int, 10, high as int, x as int);
        }
        assert(decimal_chars(v) =~= Seq::new(d.len(), |i: int| digit_char(d[i])));
    }
}

/// Writing what was read gives the canonical numeral of the text: its
/// decimal digits, without the leading zeros and without any other
/// character.
pub proof fn lemma_text_round_trip(s: Seq<char>)
    ensures
        decimal_chars(decimal_value(s)) == canonical_numeral(s),
{
    let d = decimal_digits(s);
    lemma_decimal_digits_below(s);
    lemma_strip_zeros(d, 10);
    let kept = strip_zeros(d);
    if kept.len() > 0 {
        lemma_numeral_of_digits(kept);
    }
}

} // verus!
