//! Positional notation: the number that a sequence of digits denotes, the
//! digits that denote a number, and the facts that connect the two.

use vstd::arithmetic::div_mod::{lemma_basic_div, lemma_fundamental_div_mod_converse};
use vstd::arithmetic::mul::{lemma_mul_is_associative, lemma_mul_is_distributive_add};
use vstd::arithmetic::power::{lemma_pow0, lemma_pow1, lemma_pow_adds, lemma_pow_positive, pow};
use vstd::prelude::*;

verus! {

/// The number denoted by base-256 digits, least significant first.
pub open spec fn le_value(s: Seq<u8>) -> nat
    decreases s.len(),
{
    if s.len() == 0 {
        0
    } else {
        s[0] as nat + 256 * le_value(s.drop_first())
    }
}

/// The number denoted by digits in `base`, most significant first.
pub open spec fn be_value(s: Seq<u8>, base: nat) -> nat
    decreases s.len(),
{
    if s.len() == 0 {
        0
    } else {
        be_value(s.drop_last(), base) * base + s.last() as nat
    }
}

/// The shortest digit sequence for `v` in `base`, least significant first,
/// for a base from 2 to 256. Zero has no digits.
pub open spec fn le_digits(v: nat, base: nat) -> Seq<u8>
    decreases v,
    when base >= 2
    via le_digits_decreases
{
    if v == 0 {
        Seq::empty()
    } else {
        seq![(v % base) as u8] + le_digits(v / base, base)
    }
}

#[via_fn]
proof fn le_digits_decreases(v: nat, base: nat) {
    if v != 0 {
        assert(v / base < v) by (nonlinear_arith)
            requires
                v > 0,
                base >= 2,
        ;
    }
}

/// The shortest digit sequence for `v` in `base` that is not empty: zero is
/// the single digit 0, and no other number has a most significant zero.
pub open spec fn canonical_digits(v: nat, base: nat) -> Seq<u8> {
    if v == 0 {
        seq![0u8]
    } else {
        le_digits(v, base)
    }
}

/// The `len` least significant base-256 digits of `v`, least significant
/// first.
pub open spec fn digits_of(v: nat, len: nat) -> Seq<u8>
    decreases len,
{
    if len == 0 {
        Seq::empty()
    } else {
        seq![(v % 256) as u8] + digits_of(v / 256, (len - 1) as nat)
    }
}

/// What is left of `v` above its `len` least significant base-256 digits.
pub open spec fn high_part(v: nat, len: nat) -> nat {
    (v as int / pow(256, len)) as nat
}

/// A digit sequence may stand in `base`: each digit is below it.
pub open spec fn digits_below(s: Seq<u8>, base: nat) -> bool {
    forall|i: int| 0 <= i < s.len() ==> (#[trigger] s[i] as nat) < base
}

/// Appending digits at the significant end adds their value, shifted by the
/// length of what was there.
pub proof fn lemma_le_value_concat(s: Seq<u8>, t: Seq<u8>)
    ensures
        le_value(s + t) == le_value(s) + pow(256, s.len()) * le_value(t),
    decreases s.len(),
{
    if s.len() == 0 {
        assert(s + t =~= t);
        lemma_pow0(256);
    } else {
        let rest = s.drop_first();
        assert((s + t).drop_first() =~= rest + t);
        lemma_le_value_concat(rest, t);
        lemma_pow_adds(256, 1, rest.len());
        lemma_pow1(256);
        assert(pow(256, s.len()) == 256 * pow(256, rest.len()));
        let p = pow(256, rest.len());
        let x = le_value(t) as int;
        assert(256 * (p * x) == (256 * p) * x) by {
            lemma_mul_is_associative(256, p, x);
        }
        assert(256 * (le_value(rest) + p * x) == 256 * le_value(rest) + 256 * (p * x)) by {
            lemma_mul_is_distributive_add(256, le_value(rest) as int, p * x);
        }
    }
}

/// Pushing one digit adds it at the weight of its position.
pub proof fn lemma_le_value_push(s: Seq<u8>, d: u8)
    ensures
        le_value(s.push(d)) == le_value(s) + d as nat * pow(256, s.len()),
{
    let t = seq![d];
    assert(s.push(d) =~= s + t);
    lemma_le_value_concat(s, t);
    assert(t.drop_first() =~= Seq::<u8>::empty());
    assert(le_value(t) == d as nat) by {
        reveal_with_fuel(le_value, 2);
    }
    assert(pow(256, s.len()) * (d as int) == (d as int) * pow(256, s.len())) by (nonlinear_arith);
}

/// A number of `n` digits is below the `n`-th power of 256.
pub proof fn lemma_le_value_bound(s: Seq<u8>)
    ensures
        le_value(s) < pow(256, s.len()),
    decreases s.len(),
{
    if s.len() == 0 {
        lemma_pow0(256);
    } else {
        let rest = s.drop_first();
        lemma_le_value_bound(rest);
        lemma_pow_adds(256, 1, rest.len());
        lemma_pow1(256);
        assert(pow(256, s.len()) == 256 * pow(256, rest.len()));
    }
}

/// The shortest digits of a number denote it.
pub proof fn lemma_le_digits_value(v: nat)
    ensures
        le_value(le_digits(v, 256)) == v,
        digits_below(le_digits(v, 256), 256),
    decreases v,
{
    if v != 0 {
        let s = le_digits(v, 256);
        lemma_le_digits_value(v / 256);
        assert(s.drop_first() =~= le_digits(v / 256, 256));
    }
}

/// Fixed-width digits have the width asked for.
pub proof fn lemma_digits_of_len(v: nat, len: nat)
    ensures
        digits_of(v, len).len() == len,
    decreases len,
{
    if len > 0 {
        lemma_digits_of_len(v / 256, (len - 1) as nat);
    }
}

/// A digit sequence is the fixed-width digits of the number it denotes:
/// nothing else of its length has that value.
pub proof fn lemma_digits_of_value(s: Seq<u8>)
    ensures
        digits_of(le_value(s), s.len()) == s,
    decreases s.len(),
{
    if s.len() > 0 {
        let rest = s.drop_first();
        lemma_digits_of_value(rest);
        let v = le_value(s);
        assert(v % 256 == s[0] as nat && v / 256 == le_value(rest)) by {
            lemma_fundamental_div_mod_converse(
                v as int,
                256,
                le_value(rest) as int,
                s[0] as int,
            );
        }
        assert(digits_of(v, s.len()) =~= seq![s[0]] + rest);
        assert(seq![s[0]] + rest =~= s);
    }
}

/// Read most significant first, the reversed digits denote the same number.
pub proof fn lemma_be_value_reverse(s: Seq<u8>)
    ensures
        be_value(s.reverse(), 256) == le_value(s),
    decreases s.len(),
{
    if s.len() > 0 {
        let rest = s.drop_first();
        lemma_be_value_reverse(rest);
        assert(s.reverse().drop_last() =~= rest.reverse());
        assert(s.reverse().last() == s[0]);
    }
}

/// Fixed-width digits denote the number they were taken from when the width
/// is enough for it.
pub proof fn lemma_digits_of_denotes(v: nat, len: nat)
    requires
        v < pow(256, len),
    ensures
        le_value(digits_of(v, len)) == v,
    decreases len,
{
    if len == 0 {
        lemma_pow0(256);
    } else {
        let less = (len - 1) as nat;
        lemma_pow_adds(256, 1, less);
        lemma_pow1(256);
        assert(pow(256, len) == 256 * pow(256, less));
        lemma_digits_of_denotes(v / 256, less);
        assert(digits_of(v, len).drop_first() =~= digits_of(v / 256, less));
    }
}

/// Nothing is left of a number above as many digits as are enough for it.
pub proof fn lemma_high_part_zero(v: nat, len: nat)
    requires
        v < pow(256, len),
    ensures
        high_part(v, len) == 0,
{
    lemma_pow_positive(256, len);
    lemma_basic_div(v as int, pow(256, len));
}

/// Digits that do not begin with a zero denote a positive number.
pub proof fn lemma_be_value_positive(s: Seq<u8>, base: nat)
    requires
        s.len() > 0,
        s[0] != 0,
        base >= 1,
    ensures
        be_value(s, base) > 0,
    decreases s.len(),
{
    if s.len() > 1 {
        lemma_be_value_positive(s.drop_last(), base);
        let high = be_value(s.drop_last(), base);
        assert(high * base >= high) by (nonlinear_arith)
            requires
                base >= 1,
        ;
    }
}

/// The canonical digits of a number denote it, and there is at least one.
pub proof fn lemma_canonical_digits_value(v: nat)
    ensures
        le_value(canonical_digits(v, 256)) == v,
        canonical_digits(v, 256).len() > 0,
{
    lemma_le_digits_value(v);
    if v == 0 {
        assert(le_value(seq![0u8]) == 0) by {
            reveal_with_fuel(le_value, 2);
        }
    }
}

/// Every fixed-width digit of zero is zero.
pub proof fn lemma_digits_of_zero(len: nat)
    ensures
        digits_of(0, len) == Seq::new(len, |i: int| 0u8),
    decreases len,
{
    if len > 0 {
        lemma_digits_of_zero((len - 1) as nat);
        assert(digits_of(0, len) =~= Seq::new(len, |i: int| 0u8));
    } else {
        assert(digits_of(0, len) =~= Seq::new(len, |i: int| 0u8));
    }
}

} // verus!
