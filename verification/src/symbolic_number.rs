//! Unsigned integers as base-256 digits, and their product.

use crate::cache::AlignedTable;
use crate::radix::{
    canonical_digits, digits_of, le_digits, le_value, lemma_digits_of_denotes,
    lemma_digits_of_len, lemma_digits_of_value, lemma_digits_of_zero, lemma_high_part_zero,
    lemma_le_digits_value, lemma_le_value_bound, lemma_le_value_push,
};
use crate::schoolbook::{
    accumulate, block_bounds, block_start, column_sum, holds_rows, lemma_blocks_tile,
    lemma_column_sum_bound, lemma_column_sum_split, lemma_columns_are_product, partial_product,
    propagate_carry,
};
use vstd::arithmetic::power::{lemma_pow_adds, pow};
use vstd::prelude::*;

verus! {

/// An unsigned integer as base-256 digits, least significant first.
#[derive(Clone, Debug)]
pub struct SymbolicNumber {
    pub digits: Vec<u8>,
}

/// The digits of the product of the numbers that `a` and `b` denote, one
/// digit for each digit of the operands.
pub open spec fn product_digits(a: Seq<u8>, b: Seq<u8>) -> Seq<u8> {
    digits_of(le_value(a) * le_value(b), a.len() + b.len())
}

/// The product of two numbers fits in as many digits as both have together.
pub proof fn lemma_product_fits(a: Seq<u8>, b: Seq<u8>)
    ensures
        le_value(a) * le_value(b) < pow(256, a.len() + b.len()),
        le_value(product_digits(a, b)) == le_value(a) * le_value(b),
        product_digits(a, b).len() == a.len() + b.len(),
{
    lemma_le_value_bound(a);
    lemma_le_value_bound(b);
    lemma_pow_adds(256, a.len(), b.len());
    let x = le_value(a) as int;
    let y = le_value(b) as int;
    let p = pow(256, a.len());
    let q = pow(256, b.len());
    assert(x * y < p * q) by (nonlinear_arith)
        requires
            0 <= x < p,
            0 <= y < q,
    ;
    lemma_digits_of_denotes(le_value(a) * le_value(b), a.len() + b.len());
    lemma_digits_of_len(le_value(a) * le_value(b), a.len() + b.len());
}

impl SymbolicNumber {
    /// The number that the digits denote.
    pub open spec fn value(&self) -> nat {
        le_value(self.digits@)
    }

    /// There is at least one digit.
    pub open spec fn wf(&self) -> bool {
        self.digits@.len() > 0
    }

    /// The shortest digits of `n`; zero is the single digit 0.
    pub fn from_u128(n: u128) -> (number: Self)
        ensures
            number.digits@ == canonical_digits(n as nat, 256),
            number.value() == n,
            number.wf(),
    {
        let mut digits: Vec<u8> = Vec::new();
        if n == 0 {
            digits.push(0u8);
            assert(digits@ =~= seq![0u8]);
            assert(le_value(digits@) == 0) by {
                reveal_with_fuel(le_value, 2);
            }
            return SymbolicNumber { digits };
        }
        let mut rest: u128 = n;
        while rest > 0
            invariant
                digits@ + le_digits(rest as nat, 256) == le_digits(n as nat, 256),
            decreases rest,
        {
            let digit: u8 = (rest % 256) as u8;
            proof {
                assert(digits@.push(digit) + le_digits((rest / 256) as nat, 256) =~= digits@
                    + le_digits(rest as nat, 256));
            }
            digits.push(digit);
            rest = rest / 256;
        }
        proof {
            assert(digits@ + le_digits(0, 256) =~= digits@);
            lemma_le_digits_value(n as nat);
        }
        SymbolicNumber { digits }
    }

    /// The product of two numbers by the schoolbook method, with the rows of
    /// `self` shared out in contiguous blocks as for `n_threads` workers.
    ///
    /// Each block is evaluated by `partial_product` into columns of its own,
    /// the columns are added up and the carries propagated. The blocks are
    /// taken in turn here; a caller that evaluates them concurrently and
    /// combines them in the same way obtains the same digits, whatever the
    /// number of workers.
    pub fn multiply_parallel(
        &self,
        other: &Self,
        table: &AlignedTable,
        n_threads: usize,
    ) -> (product: Self)
        requires
            table.wf(),
            n_threads > 0,
            self.digits@.len() + other.digits@.len() <= usize::MAX,
        ensures
            product.digits@ == product_digits(self.digits@, other.digits@),
            product.digits@.len() == self.digits@.len() + other.digits@.len(),
            product.value() == self.value() * other.value(),
            self.wf() || other.wf() ==> product.wf(),
    {
        let n: usize = self.digits.len();
        let m: usize = other.digits.len();
        let ghost a = self.digits@;
        let ghost b = other.digits@;
        let mut result: Vec<u128> = vec![0u128; n + m];
        let mut t: usize = 0;
        let mut covered: usize = 0;
        while t < n_threads && covered < n
            invariant
                table.wf(),
                n_threads > 0,
                a == self.digits@,
                b == other.digits@,
                n == a.len(),
                m == b.len(),
                n + m <= usize::MAX,
                t <= n_threads,
                covered == block_start(n as nat, n_threads as nat, t as nat),
                holds_rows(result@, a, b, 0, covered as int),
            decreases n_threads - t,
        {
            let (start, end) = block_bounds(n, n_threads, t);
            if start < end {
                let partial = partial_product(&self.digits, &other.digits, table, start, end);
                proof {
                    assert forall|k: int| 0 <= k < partial@.len() implies result@[k] as nat + (
                    #[trigger] partial@[k]) as nat == column_sum(a, b, 0, end as int, k)
                        && result@[k] as nat + partial@[k] as nat <= u128::MAX by {
                        lemma_column_sum_split(a, b, 0, start as int, end as int, k);
                        lemma_column_sum_bound(a, b, 0, end as int, k);
                        assert(end * 65025 <= 0xffff_ffff_ffff_ffff * 65025) by (nonlinear_arith)
                            requires
                                0 <= end <= 0xffff_ffff_ffff_ffff,
                        ;
                    }
                }
                accumulate(&mut result, &partial);
            }
            covered = end;
            t += 1;
        }
        proof {
            lemma_blocks_tile(n as nat, n_threads as nat, t as nat);
            assert(covered == n);
            lemma_columns_are_product(result@, a, b);
            lemma_product_fits(a, b);
            lemma_high_part_zero(le_value(a) * le_value(b), (n + m) as nat);
        }
        let digits = propagate_carry(&result);
        proof {
            assert(digits@ =~= product_digits(a, b));
        }
        SymbolicNumber { digits }
    }
}

/// Multiplication commutes: the operands may be swapped without changing
/// any digit of the product.
pub proof fn lemma_multiply_commutes(a: Seq<u8>, b: Seq<u8>)
    ensures
        product_digits(a, b) == product_digits(b, a),
{
    assert(le_value(a) * le_value(b) == le_value(b) * le_value(a)) by (nonlinear_arith);
}

/// A product with zero is zero: all its digits are zero, one for each digit
/// of the operands.
pub proof fn lemma_multiply_by_zero(a: Seq<u8>)
    ensures
        product_digits(a, seq![0u8]) == Seq::new(a.len() + 1, |i: int| 0u8),
        product_digits(seq![0u8], a) == Seq::new(a.len() + 1, |i: int| 0u8),
        le_value(product_digits(a, seq![0u8])) == 0,
        le_value(product_digits(seq![0u8], a)) == 0,
{
    let zero = seq![0u8];
    assert(le_value(zero) == 0) by {
        reveal_with_fuel(le_value, 2);
    }
    assert(le_value(a) * 0 == 0) by (nonlinear_arith);
    lemma_multiply_commutes(a, zero);
    lemma_digits_of_zero(a.len() + 1);
    lemma_product_fits(a, zero);
}

/// A product with one denotes the other operand: it has that operand's
/// digits, followed by a zero for the digit of the one.
pub proof fn lemma_multiply_by_one(a: Seq<u8>)
    ensures
        product_digits(a, seq![1u8]) == a.push(0u8),
        product_digits(seq![1u8], a) == a.push(0u8),
        le_value(product_digits(a, seq![1u8])) == le_value(a),
{
    let one = seq![1u8];
    assert(le_value(one) == 1) by {
        reveal_with_fuel(le_value, 2);
    }
    assert(le_value(a) * 1 == le_value(a)) by (nonlinear_arith);
    lemma_multiply_commutes(a, one);
    lemma_le_value_push(a, 0u8);
    assert(0 * pow(256, a.len()) == 0) by (nonlinear_arith);
    lemma_digits_of_value(a.push(0u8));
    lemma_product_fits(a, one);
}

} // verus!
