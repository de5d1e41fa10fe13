//! Schoolbook multiplication on digit sequences: the column sums of the
//! digit products, and the proof that they add up to the product.

use crate::cache::AlignedTable;
use crate::radix::{digits_of, high_part, le_digits, le_value, lemma_le_digits_value};
use vstd::arithmetic::div_mod::{
    lemma_div_denominator, lemma_fundamental_div_mod, lemma_fundamental_div_mod_converse,
    lemma_mod_bound,
};
use vstd::arithmetic::power::{lemma_pow0, lemma_pow1, lemma_pow_adds, lemma_pow_positive, pow};
use vstd::prelude::*;

verus! {

/// What row `i` of `a` contributes to column `k`: the product of digit `i`
/// of `a` with the digit of `b` that it meets there, if any.
pub open spec fn term(a: Seq<u8>, b: Seq<u8>, i: int, k: int) -> nat {
    if 0 <= i < a.len() && 0 <= k - i < b.len() {
        a[i] as nat * b[k - i] as nat
    } else {
        0
    }
}

/// The sum of the products `a[i] * b[j]` over all pairs with `i + j == k`
/// and `lo <= i < hi`: what the rows from `lo` up to `hi` contribute to
/// column `k` before any carry.
pub open spec fn column_sum(a: Seq<u8>, b: Seq<u8>, lo: int, hi: int, k: int) -> nat
    decreases hi - lo,
{
    if hi <= lo {
        0
    } else {
        column_sum(a, b, lo, hi - 1, k) + term(a, b, hi - 1, k)
    }
}

/// The number that unreduced columns denote, least significant first:
/// column `k` counts 256 to the `k`.
pub open spec fn acc_value(acc: Seq<u128>) -> nat
    decreases acc.len(),
{
    if acc.len() == 0 {
        0
    } else {
        acc[0] as nat + 256 * acc_value(acc.drop_first())
    }
}

/// The columns hold exactly the contribution of rows `lo` up to `hi`.
pub open spec fn holds_rows(acc: Seq<u128>, a: Seq<u8>, b: Seq<u8>, lo: int, hi: int) -> bool {
    &&& acc.len() == a.len() + b.len()
    &&& forall|k: int| 0 <= k < acc.len() ==> (#[trigger] acc[k]) as nat == column_sum(a, b, lo, hi, k)
}

/// Sum of the entries, each weighted by the power of 256 of its position.
pub open spec fn wsum(s: Seq<int>) -> int
    decreases s.len(),
{
    if s.len() == 0 {
        0
    } else {
        wsum(s.drop_last()) + s.last() * pow(256, (s.len() - 1) as nat)
    }
}

/// No product of two digits exceeds 255 squared.
pub proof fn lemma_term_bound(a: Seq<u8>, b: Seq<u8>, i: int, k: int)
    ensures
        term(a, b, i, k) <= 65025,
{
    if 0 <= i < a.len() && 0 <= k - i < b.len() {
        let x = a[i] as nat;
        let y = b[k - i] as nat;
        assert(x * y <= 65025) by (nonlinear_arith)
            requires
                x <= 255,
                y <= 255,
        ;
    }
}

/// A column sum over some rows is at most 65025 for each of them.
pub proof fn lemma_column_sum_bound(a: Seq<u8>, b: Seq<u8>, lo: int, hi: int, k: int)
    requires
        lo <= hi,
    ensures
        column_sum(a, b, lo, hi, k) <= (hi - lo) * 65025,
    decreases hi - lo,
{
    if lo < hi {
        lemma_column_sum_bound(a, b, lo, hi - 1, k);
        lemma_term_bound(a, b, hi - 1, k);
    }
}

/// Rows that are split at `mid` contribute to a column what the two parts
/// contribute together.
pub proof fn lemma_column_sum_split(a: Seq<u8>, b: Seq<u8>, lo: int, mid: int, hi: int, k: int)
    requires
        lo <= mid <= hi,
    ensures
        column_sum(a, b, lo, hi, k) == column_sum(a, b, lo, mid, k) + column_sum(a, b, mid, hi, k),
    decreases hi - mid,
{
    if mid < hi {
        lemma_column_sum_split(a, b, lo, mid, hi - 1, k);
    }
}

/// The weighted sum of a position-wise sum is the sum of the weighted sums.
pub proof fn lemma_wsum_sum(f: Seq<int>, g: Seq<int>, h: Seq<int>)
    requires
        f.len() == g.len(),
        g.len() == h.len(),
        forall|k: int| 0 <= k < h.len() ==> #[trigger] h[k] == f[k] + g[k],
    ensures
        wsum(h) == wsum(f) + wsum(g),
    decreases h.len(),
{
    if h.len() > 0 {
        lemma_wsum_sum(f.drop_last(), g.drop_last(), h.drop_last());
        let p = pow(256, (h.len() - 1) as nat);
        assert(h.last() * p == f.last() * p + g.last() * p) by (nonlinear_arith)
            requires
                h.last() == f.last() + g.last(),
        ;
    }
}

/// The weighted sum of a sequence, taken from its least significant end.
pub proof fn lemma_wsum_front(s: Seq<int>)
    requires
        s.len() > 0,
    ensures
        wsum(s) == s[0] + 256 * wsum(s.drop_first()),
    decreases s.len(),
{
    lemma_pow0(256);
    if s.len() == 1 {
        assert(wsum(s.drop_last()) == 0);
        assert(wsum(s.drop_first()) == 0);
        assert(s.last() == s[0]);
    } else {
        let front = s.drop_last();
        lemma_wsum_front(front);
        assert(front.drop_first() =~= s.drop_first().drop_last());
        let e = (s.len() - 2) as nat;
        lemma_pow_adds(256, 1, e);
        lemma_pow1(256);
        let p = pow(256, e);
        let x = s.last();
        let w = wsum(front.drop_first());
        assert(pow(256, (s.len() - 1) as nat) == 256 * p);
        assert(s.drop_first().last() == x);
        assert(s.drop_first().drop_last() =~= front.drop_first());
        assert(wsum(s.drop_first()) == w + x * p);
        assert(wsum(front) == s[0] + 256 * w);
        assert(wsum(s) == wsum(front) + x * (256 * p));
        assert(256 * (w + x * p) == 256 * w + x * (256 * p)) by (nonlinear_arith);
    }
}

/// Digits widened to integers, position by position.
pub open spec fn widen(s: Seq<u8>) -> Seq<int> {
    Seq::new(s.len(), |k: int| s[k] as int)
}

/// Columns widened to integers, position by position.
pub open spec fn widen_acc(s: Seq<u128>) -> Seq<int> {
    Seq::new(s.len(), |k: int| s[k] as int)
}

/// The value of digits is the weighted sum of the digits.
pub proof fn lemma_le_value_wsum(s: Seq<u8>)
    ensures
        le_value(s) == wsum(widen(s)),
    decreases s.len(),
{
    if s.len() > 0 {
        lemma_le_value_wsum(s.drop_first());
        lemma_wsum_front(widen(s));
        assert(widen(s).drop_first() =~= widen(s.drop_first()));
    }
}

/// The value of columns is the weighted sum of the columns.
pub proof fn lemma_acc_value_wsum(s: Seq<u128>)
    ensures
        acc_value(s) == wsum(widen_acc(s)),
    decreases s.len(),
{
    if s.len() > 0 {
        lemma_acc_value_wsum(s.drop_first());
        lemma_wsum_front(widen_acc(s));
        assert(widen_acc(s).drop_first() =~= widen_acc(s.drop_first()));
    }
}

/// Row `i` alone, as columns of width `w`.
pub open spec fn row_columns(a: Seq<u8>, b: Seq<u8>, i: int, w: nat) -> Seq<int> {
    Seq::new(w, |k: int| term(a, b, i, k) as int)
}

/// Rows `0` up to `hi`, as columns of width `w`.
pub open spec fn all_columns(a: Seq<u8>, b: Seq<u8>, hi: int, w: nat) -> Seq<int> {
    Seq::new(w, |k: int| column_sum(a, b, 0, hi, k) as int)
}

/// How many digits of `b` row `i` has met within the first `w` columns.
pub open spec fn met(b: Seq<u8>, i: int, w: nat) -> int {
    if w <= i {
        0
    } else if w - i >= b.len() {
        b.len() as int
    } else {
        w - i
    }
}

/// Within the first `w` columns, row `i` is worth its digit, at the weight
/// of its position, times the digits of `b` that it has met.
pub proof fn lemma_row_value(a: Seq<u8>, b: Seq<u8>, i: int, w: nat)
    requires
        0 <= i < a.len(),
    ensures
        wsum(row_columns(a, b, i, w)) == a[i] as int * pow(256, i as nat) * wsum(
            widen(b).take(met(b, i, w)),
        ),
    decreases w,
{
    let ai = a[i] as int;
    let pi = pow(256, i as nat);
    if w == 0 {
        assert(widen(b).take(0).len() == 0);
        assert(ai * pi * 0 == 0) by (nonlinear_arith);
    } else {
        let v = (w - 1) as nat;
        lemma_row_value(a, b, i, v);
        let row = row_columns(a, b, i, w);
        assert(row.drop_last() =~= row_columns(a, b, i, v));
        assert(row.last() == term(a, b, i, v as int) as int);
        assert(wsum(row) == wsum(row_columns(a, b, i, v)) + row.last() * pow(256, v));
        let j = v - i;
        if 0 <= j < b.len() {
            let bj = b[j] as int;
            let seen = widen(b).take(j + 1);
            assert(seen.drop_last() =~= widen(b).take(j));
            assert(seen.last() == bj);
            assert(met(b, i, w) == j + 1);
            assert(met(b, i, v) == j);
            let pj = pow(256, j as nat);
            assert(pow(256, v) == pi * pj) by {
                lemma_pow_adds(256, i as nat, j as nat);
            }
            let before = wsum(widen(b).take(j));
            assert(wsum(seen) == before + bj * pj);
            assert(ai * pi * (before + bj * pj) == ai * pi * before + (ai * bj) * (pi * pj))
                by (nonlinear_arith);
            assert(term(a, b, i, v as int) == ai * bj);
            assert(row.last() * pow(256, v) == (ai * bj) * (pi * pj));
        } else {
            assert(term(a, b, i, v as int) == 0);
            assert(met(b, i, w) == met(b, i, v));
            assert(row.last() * pow(256, v) == 0) by (nonlinear_arith)
                requires
                    row.last() == 0,
            ;
        }
    }
}

/// The columns of all rows up to `hi`, wide enough to hold them, are worth
/// those digits of `a` times `b`.
pub proof fn lemma_columns_value(a: Seq<u8>, b: Seq<u8>, hi: int, w: nat)
    requires
        0 <= hi <= a.len(),
        w >= a.len() + b.len(),
    ensures
        wsum(all_columns(a, b, hi, w)) == wsum(widen(a).take(hi)) * le_value(b),
    decreases hi,
{
    if hi == 0 {
        assert(widen(a).take(0).len() == 0);
        lemma_wsum_zero(all_columns(a, b, 0, w));
    } else {
        let i = hi - 1;
        lemma_columns_value(a, b, i, w);
        lemma_row_value(a, b, i, w);
        lemma_wsum_sum(all_columns(a, b, i, w), row_columns(a, b, i, w), all_columns(a, b, hi, w));
        assert(met(b, i, w) == b.len());
        assert(widen(b).take(b.len() as int) =~= widen(b));
        lemma_le_value_wsum(b);
        let upto = widen(a).take(hi);
        assert(upto.drop_last() =~= widen(a).take(i));
        assert(upto.last() == a[i] as int);
        let before = wsum(widen(a).take(i));
        let ai = a[i] as int;
        let pi = pow(256, i as nat);
        let vb = le_value(b) as int;
        assert(wsum(upto) == before + ai * pi);
        assert((before + ai * pi) * vb == before * vb + ai * pi * vb) by (nonlinear_arith);
    }
}

/// Columns that are all zero are worth nothing.
pub proof fn lemma_wsum_zero(s: Seq<int>)
    requires
        forall|k: int| 0 <= k < s.len() ==> #[trigger] s[k] == 0,
    ensures
        wsum(s) == 0,
    decreases s.len(),
{
    if s.len() > 0 {
        lemma_wsum_zero(s.drop_last());
    }
}

/// Columns that hold the contribution of every row of `a` denote the
/// product of the two numbers.
pub proof fn lemma_columns_are_product(acc: Seq<u128>, a: Seq<u8>, b: Seq<u8>)
    requires
        holds_rows(acc, a, b, 0, a.len() as int),
    ensures
        acc_value(acc) == le_value(a) * le_value(b),
{
    let w = acc.len();
    lemma_acc_value_wsum(acc);
    assert(widen_acc(acc) =~= all_columns(a, b, a.len() as int, w));
    lemma_columns_value(a, b, a.len() as int, w);
    assert(widen(a).take(a.len() as int) =~= widen(a));
    lemma_le_value_wsum(a);
}

/// The digits that carry propagation writes for the columns `acc` and an
/// incoming `carry`: each column gives its sum modulo 256 and hands the rest
/// on, and what is left after the last column is written out in full.
pub open spec fn carried(acc: Seq<u128>, carry: nat) -> Seq<u8>
    decreases acc.len(),
{
    if acc.len() == 0 {
        le_digits(carry, 256)
    } else {
        let total = acc[0] as nat + carry;
        seq![(total % 256) as u8] + carried(acc.drop_first(), total / 256)
    }
}

/// Carry propagation writes the number that columns and carry denote: one
/// digit for each column, then the shortest digits of what exceeds them.
pub proof fn lemma_carried_is_positional(acc: Seq<u128>, carry: nat)
    ensures
        carried(acc, carry) == digits_of(carry + acc_value(acc), acc.len()) + le_digits(
            high_part(carry + acc_value(acc), acc.len()),
            256,
        ),
    decreases acc.len(),
{
    let all = carry + acc_value(acc);
    if acc.len() == 0 {
        lemma_pow0(256);
        assert(high_part(all, 0) == carry);
        assert(digits_of(all, 0) + le_digits(carry, 256) =~= le_digits(carry, 256));
    } else {
        let rest = acc.drop_first();
        let total = acc[0] as nat + carry;
        let next = total / 256;
        lemma_carried_is_positional(rest, next);
        let high = acc_value(rest);
        assert(all == total + 256 * high);
        assert(all % 256 == total % 256 && all / 256 == next + high) by {
            lemma_fundamental_div_mod_converse(
                all as int,
                256,
                (next + high) as int,
                (total % 256) as int,
            );
        }
        let p = pow(256, rest.len());
        lemma_pow_positive(256, rest.len());
        lemma_pow_adds(256, 1, rest.len());
        lemma_pow1(256);
        assert(pow(256, acc.len()) == 256 * p);
        assert((all as int) / (256 * p) == ((all as int) / 256) / p) by {
            lemma_div_denominator(all as int, 256, p);
        }
        assert(high_part(all, acc.len()) == high_part(all / 256, rest.len()));
        let low = digits_of(all / 256, rest.len());
        let top = le_digits(high_part(all / 256, rest.len()), 256);
        assert(carried(acc, carry) =~= seq![(total % 256) as u8] + (low + top));
        assert(digits_of(all, acc.len()) =~= seq![(all % 256) as u8] + low);
    }
}

/// The digits that carry propagation writes denote what the columns and the
/// carry denote.
pub proof fn lemma_carried_value(acc: Seq<u128>, carry: nat)
    ensures
        le_value(carried(acc, carry)) == carry + acc_value(acc),
    decreases acc.len(),
{
    if acc.len() == 0 {
        lemma_le_digits_value(carry);
    } else {
        let total = acc[0] as nat + carry;
        lemma_carried_value(acc.drop_first(), total / 256);
        assert(carried(acc, carry).drop_first() =~= carried(acc.drop_first(), total / 256));
    }
}

/// Turns unreduced columns into digits: from the least significant column
/// up, each column's sum plus the incoming carry leaves its remainder
/// modulo 256 as a digit and hands the quotient on; the carry left after the
/// last column is written out until nothing remains.
pub fn propagate_carry(acc: &Vec<u128>) -> (digits: Vec<u8>)
    ensures
        digits@ == digits_of(acc_value(acc@), acc@.len()) + le_digits(
            high_part(acc_value(acc@), acc@.len()),
            256,
        ),
        le_value(digits@) == acc_value(acc@),
{
    let len: usize = acc.len();
    let mut digits: Vec<u8> = Vec::with_capacity(len);
    let mut carry: u128 = 0;
    let mut k: usize = 0;
    assert(acc@.subrange(0, len as int) =~= acc@);
    while k < len
        invariant
            len == acc@.len(),
            k <= len,
            carry <= u128::MAX / 255,
            digits@ + carried(acc@.subrange(k as int, len as int), carry as nat) == carried(
                acc@,
                0,
            ),
        decreases len - k,
    {
        let column: u128 = acc[k];
        let low: u128 = column % 256 + carry % 256;
        let next: u128 = column / 256 + carry / 256 + low / 256;
        let digit: u8 = (low % 256) as u8;
        proof {
            let total = column as nat + carry as nat;
            assert(total % 256 == digit as nat && total / 256 == next as nat) by {
                lemma_fundamental_div_mod_converse(total as int, 256, next as int, digit as int);
            }
            let here = acc@.subrange(k as int, len as int);
            assert(here.drop_first() =~= acc@.subrange(k + 1, len as int));
            assert(here[0] == column);
            assert(digits@.push(digit) + carried(here.drop_first(), next as nat) =~= digits@
                + carried(here, carry as nat));
        }
        digits.push(digit);
        carry = next;
        k += 1;
    }
    assert(acc@.subrange(len as int, len as int) =~= Seq::<u128>::empty());
    while carry > 0
        invariant
            digits@ + le_digits(carry as nat, 256) == carried(acc@, 0),
        decreases carry,
    {
        let digit: u8 = (carry % 256) as u8;
        proof {
            assert(digits@.push(digit) + le_digits((carry / 256) as nat, 256) =~= digits@
                + le_digits(carry as nat, 256));
        }
        digits.push(digit);
        carry = carry / 256;
    }
    proof {
        assert(digits@ + le_digits(0, 256) =~= digits@);
        lemma_carried_is_positional(acc@, 0);
        lemma_carried_value(acc@, 0);
    }
    digits
}

/// Rows per block when `n` rows are shared out among `workers`: the
/// quotient, rounded up.
pub open spec fn block_size(n: nat, workers: nat) -> nat {
    ((n + workers - 1) / (workers as int)) as nat
}

/// The first row of block `t`.
pub open spec fn block_start(n: nat, workers: nat, t: nat) -> nat {
    if t * block_size(n, workers) < n {
        t * block_size(n, workers)
    } else {
        n
    }
}

/// The row after the last row of block `t`.
pub open spec fn block_end(n: nat, workers: nat, t: nat) -> nat {
    block_start(n, workers, t + 1)
}

/// The blocks lie one after another from row 0, and the blocks of as many
/// workers as there are reach the last row: each row is in exactly one.
pub proof fn lemma_blocks_tile(n: nat, workers: nat, t: nat)
    requires
        workers > 0,
    ensures
        block_start(n, workers, 0) == 0,
        block_start(n, workers, t) <= block_end(n, workers, t) <= n,
        block_end(n, workers, t) == block_start(n, workers, t + 1),
        block_start(n, workers, workers) == n,
{
    let size = block_size(n, workers);
    assert(t * size <= (t + 1) * size) by (nonlinear_arith);
    assert(workers * size >= n) by {
        let w = workers as int;
        let x = n + w - 1;
        lemma_fundamental_div_mod(x, w);
        lemma_mod_bound(x, w);
        assert(x / w >= 0) by (nonlinear_arith)
            requires
                x >= 0,
                w > 0,
        ;
    }
}

/// The rows `start` up to `end` that block `t` covers when `n` rows are
/// shared out among `workers`.
pub fn block_bounds(n: usize, workers: usize, t: usize) -> (rows: (usize, usize))
    requires
        workers > 0,
    ensures
        rows.0 == block_start(n as nat, workers as nat, t as nat),
        rows.1 == block_end(n as nat, workers as nat, t as nat),
        rows.0 <= rows.1 <= n,
{
    let quotient: usize = n / workers;
    let remainder: usize = n % workers;
    proof {
        let w = workers as int;
        let q = quotient as int;
        let r = remainder as int;
        lemma_fundamental_div_mod(n as int, w);
        lemma_mod_bound(n as int, w);
        assert(w * q == q * w) by (nonlinear_arith);
        if r == 0 {
            lemma_fundamental_div_mod_converse(n + w - 1, w, q, w - 1);
        } else {
            assert((q + 1) * w == q * w + w) by (nonlinear_arith);
            lemma_fundamental_div_mod_converse(n + w - 1, w, q + 1, r - 1);
            assert(q * 2 <= q * w) by (nonlinear_arith)
                requires
                    q >= 0,
                    w >= 2,
            ;
        }
    }
    let size: usize = if remainder == 0 {
        quotient
    } else {
        quotient + 1
    };
    proof {
        assert(size == block_size(n as nat, workers as nat));
        lemma_blocks_tile(n as nat, workers as nat, t as nat);
        assert(t * size <= 0xffff_ffff_ffff_ffff * 0xffff_ffff_ffff_ffff) by (nonlinear_arith)
            requires
                0 <= t <= 0xffff_ffff_ffff_ffff,
                0 <= size <= 0xffff_ffff_ffff_ffff,
        ;
        assert((t + 1) * size <= 0x1_0000_0000_0000_0000 * 0xffff_ffff_ffff_ffff)
            by (nonlinear_arith)
            requires
                0 <= t <= 0xffff_ffff_ffff_ffff,
                0 <= size <= 0xffff_ffff_ffff_ffff,
        ;
    }
    let wide: u128 = size as u128;
    let first: u128 = t as u128 * wide;
    let after: u128 = (t as u128 + 1) * wide;
    let start: usize = if first < n as u128 {
        first as usize
    } else {
        n
    };
    let end: usize = if after < n as u128 {
        after as usize
    } else {
        n
    };
    (start, end)
}

/// What row `i` has added to column `k` once it has met the first `j`
/// digits of `b`.
pub open spec fn row_progress(a: Seq<u8>, b: Seq<u8>, i: int, j: int, k: int) -> nat {
    if i <= k < i + j {
        term(a, b, i, k)
    } else {
        0
    }
}

/// One worker's share: the unreduced columns of the rows `start` up to
/// `end` of `a` times all of `b`, in a buffer of its own that is as wide as
/// the whole product.
pub fn partial_product(
    a: &Vec<u8>,
    b: &Vec<u8>,
    table: &AlignedTable,
    start: usize,
    end: usize,
) -> (partial: Vec<u128>)
    requires
        table.wf(),
        start <= end <= a@.len(),
        a@.len() + b@.len() <= usize::MAX,
    ensures
        holds_rows(partial@, a@, b@, start as int, end as int),
{
    let n: usize = a.len();
    let m: usize = b.len();
    let mut partial: Vec<u128> = vec![0u128; n + m];
    let mut i: usize = start;
    while i < end
        invariant
            table.wf(),
            n == a@.len(),
            m == b@.len(),
            n + m <= usize::MAX,
            start <= i <= end <= n,
            holds_rows(partial@, a@, b@, start as int, i as int),
        decreases end - i,
    {
        let digit: u8 = a[i];
        let mut j: usize = 0;
        while j < m
            invariant
                table.wf(),
                n == a@.len(),
                m == b@.len(),
                n + m <= usize::MAX,
                start <= i < end <= n,
                j <= m,
                digit == a@[i as int],
                partial@.len() == n + m,
                forall|k: int|
                    0 <= k < partial@.len() ==> (#[trigger] partial@[k]) as nat == column_sum(
                        a@,
                        b@,
                        start as int,
                        i as int,
                        k,
                    ) + row_progress(a@, b@, i as int, j as int, k),
            decreases m - j,
        {
            let product: u128 = table.lookup(digit, b[j]) as u128;
            let at: usize = i + j;
            proof {
                lemma_column_sum_bound(a@, b@, start as int, i as int, at as int);
                assert((i - start) * 65025 <= 0xffff_ffff_ffff_ffff * 65025) by (nonlinear_arith)
                    requires
                        0 <= i - start <= 0xffff_ffff_ffff_ffff,
                ;
                assert(term(a@, b@, i as int, at as int) == product as nat);
            }
            partial[at] = partial[at] + product;
            j += 1;
        }
        i += 1;
    }
    partial
}

/// Adds one worker's columns into the combined columns, position by
/// position.
pub fn accumulate(result: &mut Vec<u128>, partial: &Vec<u128>)
    requires
        old(result)@.len() == partial@.len(),
        forall|k: int|
            0 <= k < partial@.len() ==> old(result)@[k] as nat + (#[trigger] partial@[k]) as nat
                <= u128::MAX,
    ensures
        final(result)@.len() == old(result)@.len(),
        forall|k: int|
            0 <= k < partial@.len() ==> (#[trigger] final(result)@[k]) as nat == old(result)@[k] as nat
                + partial@[k] as nat,
{
    let len: usize = partial.len();
    let mut k: usize = 0;
    while k < len
        invariant
            len == partial@.len(),
            result@.len() == len,
            k <= len,
            forall|x: int| 0 <= x < k ==> (#[trigger] result@[x]) as nat == old(result)@[x] as nat
                + partial@[x] as nat,
            forall|x: int| k <= x < len ==> (#[trigger] result@[x]) == old(result)@[x],
            forall|x: int|
                0 <= x < len ==> old(result)@[x] as nat + (#[trigger] partial@[x]) as nat
                    <= u128::MAX,
        decreases len - k,
    {
        result[k] = result[k] + partial[k];
        k += 1;
    }
}

/// What the first `count` blocks contribute to column `k` together when the
/// rows of `a` are shared out among `workers`.
pub open spec fn blocks_sum(a: Seq<u8>, b: Seq<u8>, workers: nat, count: nat, k: int) -> nat
    decreases count,
{
    if count == 0 {
        0
    } else {
        let t = (count - 1) as nat;
        blocks_sum(a, b, workers, t, k) + column_sum(
            a,
            b,
            block_start(a.len(), workers, t) as int,
            block_end(a.len(), workers, t) as int,
            k,
        )
    }
}

/// The first `count` blocks contribute together what the rows that they
/// cover contribute.
pub proof fn lemma_blocks_sum(a: Seq<u8>, b: Seq<u8>, workers: nat, count: nat, k: int)
    requires
        workers > 0,
    ensures
        blocks_sum(a, b, workers, count, k) == column_sum(
            a,
            b,
            0,
            block_start(a.len(), workers, count) as int,
            k,
        ),
    decreases count,
{
    if count > 0 {
        let t = (count - 1) as nat;
        lemma_blocks_sum(a, b, workers, t, k);
        lemma_blocks_tile(a.len(), workers, t);
        lemma_column_sum_split(
            a,
            b,
            0,
            block_start(a.len(), workers, t) as int,
            block_end(a.len(), workers, t) as int,
            k,
        );
    } else {
        lemma_blocks_tile(a.len(), workers, 0);
    }
}

/// The number of workers does not show in the result: however many share
/// out the rows, their blocks together put into every column the sum of all
/// digit products that belong there, so any two numbers of workers lead to
/// the same columns and, after carry propagation, to the same digits.
pub proof fn lemma_worker_count_immaterial(
    a: Seq<u8>,
    b: Seq<u8>,
    workers: nat,
    others: nat,
    k: int,
)
    requires
        workers > 0,
        others > 0,
    ensures
        blocks_sum(a, b, workers, workers, k) == column_sum(a, b, 0, a.len() as int, k),
        blocks_sum(a, b, workers, workers, k) == blocks_sum(a, b, others, others, k),
{
    lemma_blocks_sum(a, b, workers, workers, k);
    lemma_blocks_sum(a, b, others, others, k);
    lemma_blocks_tile(a.len(), workers, 0);
    lemma_blocks_tile(a.len(), others, 0);
}

} // verus!
