//! The digit product table and the scans that read it.

use vstd::arithmetic::div_mod::{lemma_add_mod_noop, lemma_small_mod};
use vstd::prelude::*;

verus! {

/// The radix of a digit.
pub const BASE: usize = 256;

/// Number of entries in the product table.
pub const TABLE_SIZE: usize = 65536;

/// Number of table entries that share one 64-byte cache line.
pub const LINE_ENTRIES: usize = 32;

/// Number of leading rows read by `worker_simulated_multiply`.
pub const SCAN_ROWS: usize = 8;

/// The products of all pairs of digits, row by row: the product of `a` and
/// `b` is stored at index `a * 256 + b`.
///
/// A row fills eight cache lines of 64 bytes. The type does not fix where
/// the table lies in memory; placed on a 64-byte boundary, every row begins
/// a cache line.
pub struct AlignedTable {
    pub data: [u16; TABLE_SIZE],
}

impl AlignedTable {
    /// Every entry holds the product of its row and column.
    pub open spec fn wf(&self) -> bool {
        forall|i: int, j: int|
            0 <= i < 256 && 0 <= j < 256 ==> (#[trigger] self.data@[i * 256 + j]) as int == i * j
    }

    /// Builds the fully populated table.
    pub fn new() -> (table: Self)
        ensures
            table.wf(),
    {
        let mut table = AlignedTable { data: [0u16; TABLE_SIZE] };
        let mut i: usize = 0;
        while i < BASE
            invariant
                i <= 256,
                forall|x: int, y: int|
                    0 <= x < i && 0 <= y < 256 ==> (#[trigger] table.data@[x * 256 + y]) as int
                        == x * y,
            decreases 256 - i,
        {
            let row_start: usize = i * BASE;
            let mut j: usize = 0;
            while j < BASE
                invariant
                    i < 256,
                    j <= 256,
                    row_start == i * 256,
                    forall|x: int, y: int|
                        0 <= x < i && 0 <= y < 256 ==> (#[trigger] table.data@[x * 256 + y]) as int
                            == x * y,
                    forall|y: int|
                        0 <= y < j ==> (#[trigger] table.data@[i * 256 + y]) as int == i * y,
                decreases 256 - j,
            {
                assert(i * j <= 255 * 255) by (nonlinear_arith)
                    requires
                        i <= 255,
                        j <= 255,
                ;
                table.data[row_start + j] = (i * j) as u16;
                j += 1;
            }
            i += 1;
        }
        table
    }

    /// Tells whether every entry holds the product of its row and column.
    pub fn is_well_formed(&self) -> (ok: bool)
        ensures
            ok == self.wf(),
    {
        let mut i: usize = 0;
        while i < BASE
            invariant
                i <= 256,
                forall|x: int, y: int|
                    0 <= x < i && 0 <= y < 256 ==> (#[trigger] self.data@[x * 256 + y]) as int
                        == x * y,
            decreases 256 - i,
        {
            let mut j: usize = 0;
            while j < BASE
                invariant
                    i < 256,
                    j <= 256,
                    forall|x: int, y: int|
                        0 <= x < i && 0 <= y < 256 ==> (#[trigger] self.data@[x * 256 + y]) as int
                            == x * y,
                    forall|y: int|
                        0 <= y < j ==> (#[trigger] self.data@[i * 256 + y]) as int == i * y,
                decreases 256 - j,
            {
                assert(i * j <= 255 * 255) by (nonlinear_arith)
                    requires
                        i <= 255,
                        j <= 255,
                ;
                if self.data[i * BASE + j] as usize != i * j {
                    assert(self.data@[i * 256 + j] as int != i * j);
                    return false;
                }
                j += 1;
            }
            i += 1;
        }
        true
    }

    /// Reads the product of two digits.
    pub fn lookup(&self, a: u8, b: u8) -> (p: u16)
        requires
            self.wf(),
        ensures
            p as int == a as int * b as int,
    {
        let idx: usize = a as usize * BASE + b as usize;
        self.data[idx]
    }
}

/// The sum of the entries from index `lo` up to `hi`.
pub open spec fn entries_sum(data: Seq<u16>, lo: int, hi: int) -> nat
    decreases hi - lo,
{
    if hi <= lo {
        0
    } else {
        entries_sum(data, lo, hi - 1) + data[hi - 1] as nat
    }
}

/// The sum of the first entry of each of the first `lines` cache lines.
pub open spec fn line_sum(data: Seq<u16>, lines: nat) -> nat
    decreases lines,
{
    if lines == 0 {
        0
    } else {
        line_sum(data, (lines - 1) as nat) + data[(lines - 1) * 32] as nat
    }
}

/// Entries that are summed in two parts give the sum of the whole.
pub proof fn lemma_entries_sum_split(data: Seq<u16>, lo: int, mid: int, hi: int)
    requires
        lo <= mid <= hi,
    ensures
        entries_sum(data, lo, hi) == entries_sum(data, lo, mid) + entries_sum(data, mid, hi),
    decreases hi - mid,
{
    if mid < hi {
        lemma_entries_sum_split(data, lo, mid, hi - 1);
    }
}

/// In a well-formed table the first `j` entries of row `a` add up to `a`
/// times the sum of the numbers below `j`.
pub proof fn lemma_row_sum(table: &AlignedTable, a: int, j: int)
    requires
        table.wf(),
        0 <= a < 256,
        0 <= j <= 256,
    ensures
        2 * entries_sum(table.data@, a * 256, a * 256 + j) == a * j * (j - 1),
    decreases j,
{
    if j > 0 {
        lemma_row_sum(table, a, j - 1);
        let y = j - 1;
        assert(table.data@[a * 256 + y] as int == a * y);
        assert(a * y * (y - 1) + 2 * (a * y) == a * j * (j - 1)) by (nonlinear_arith)
            requires
                y == j - 1,
        ;
    } else {
        assert(a * j * (j - 1) == 0) by (nonlinear_arith)
            requires
                j == 0,
        ;
    }
}

/// In a well-formed table the first `rows` rows add up to 32640 times the
/// sum of the numbers below `rows`.
pub proof fn lemma_rows_sum(table: &AlignedTable, rows: int)
    requires
        table.wf(),
        0 <= rows <= 256,
    ensures
        2 * entries_sum(table.data@, 0, rows * 256) == 32640 * rows * (rows - 1),
    decreases rows,
{
    if rows > 0 {
        let a = rows - 1;
        lemma_rows_sum(table, a);
        lemma_row_sum(table, a, 256);
        lemma_entries_sum_split(table.data@, 0, a * 256, rows * 256);
        assert(a * 256 * 255 == 2 * (32640 * a)) by (nonlinear_arith);
        assert(32640 * a * (a - 1) + 2 * (32640 * a) == 32640 * rows * (rows - 1))
            by (nonlinear_arith)
            requires
                a == rows - 1,
        ;
    } else {
        assert(32640 * rows * (rows - 1) == 0) by (nonlinear_arith)
            requires
                rows == 0,
        ;
    }
}

/// In a well-formed table the first entries of the eight cache lines of row
/// `r` add up to 896 times `r`, so those of the rows below `rows` add up to
/// 448 times `rows` times the number before it.
pub proof fn lemma_line_sum(table: &AlignedTable, rows: nat)
    requires
        table.wf(),
        rows <= 256,
    ensures
        line_sum(table.data@, 8 * rows) == 448 * rows * (rows - 1),
    decreases rows,
{
    if rows > 0 {
        let r = (rows - 1) as int;
        lemma_line_sum(table, r as nat);
        let data = table.data@;
        assert(data[r * 256 + 0] as int == r * 0);
        assert(data[r * 256 + 32] as int == r * 32);
        assert(data[r * 256 + 64] as int == r * 64);
        assert(data[r * 256 + 96] as int == r * 96);
        assert(data[r * 256 + 128] as int == r * 128);
        assert(data[r * 256 + 160] as int == r * 160);
        assert(data[r * 256 + 192] as int == r * 192);
        assert(data[r * 256 + 224] as int == r * 224);
        assert(line_sum(data, 8 * rows) == line_sum(data, (8 * r) as nat) + 896 * r) by {
            reveal_with_fuel(line_sum, 9);
        }
        assert(448 * r * (r - 1) + 896 * r == 448 * rows * (rows - 1)) by (nonlinear_arith)
            requires
                r == rows - 1,
        ;
    } else {
        assert(448 * rows * (rows - 1) == 0) by (nonlinear_arith)
            requires
                rows == 0,
        ;
    }
}

/// Hands a value through `std::hint::black_box`, which returns its argument
/// and keeps the compiler from assuming anything about how it is used, so
/// that the read that produced the value is not optimised away. The contract
/// claims only that the value comes back unchanged.
#[verifier::external_body]
fn observed(value: u16) -> (seen: u16)
    ensures
        seen == value,
{
    std::hint::black_box(value)
}

/// Brings the table into the cache of the calling core: reads the first
/// entry of every cache line, one after another, in a way that the compiler
/// has to carry out, and returns the sum of what it read.
pub fn touch_cache(table: &AlignedTable) -> (checksum: u64)
    ensures
        checksum == line_sum(table.data@, 2048),
        table.wf() ==> checksum == 29_245_440,
{
    proof {
        if table.wf() {
            lemma_line_sum(table, 256);
        }
    }
    let mut checksum: u64 = 0;
    let mut line: usize = 0;
    let mut idx: usize = 0;
    while idx < TABLE_SIZE
        invariant
            line <= 2048,
            idx == line * 32,
            checksum == line_sum(table.data@, line as nat),
            checksum <= line * 65535,
        decreases 2048 - line,
    {
        let entry: u16 = observed(table.data[idx]);
        checksum = checksum + entry as u64;
        idx += LINE_ENTRIES;
        line += 1;
    }
    checksum
}

/// Scans each of the first eight rows `iterations` times from end to end
/// and adds up every entry read, wrapping at 64 bits: a stand-in for the
/// lookups of a multiplication that keeps to one row at a time.
pub fn worker_simulated_multiply(table: &AlignedTable, iterations: usize) -> (acc: u64)
    ensures
        acc as nat == (iterations as nat * entries_sum(table.data@, 0, 2048))
            % 0x1_0000_0000_0000_0000,
        table.wf() ==> acc as nat == (iterations as nat * 913920) % 0x1_0000_0000_0000_0000,
{
    let mut acc: u64 = 0;
    let ghost mut exact: int = 0;
    let mut a: usize = 0;
    proof {
        assert(iterations * entries_sum(table.data@, 0, 0) == 0) by (nonlinear_arith)
            requires
                entries_sum(table.data@, 0, 0) == 0,
        ;
    }
    while a < SCAN_ROWS
        invariant
            a <= 8,
            acc as int == exact % 0x1_0000_0000_0000_0000,
            exact == iterations * entries_sum(table.data@, 0, a * 256),
        decreases 8 - a,
    {
        let row_start: usize = a * BASE;
        let ghost row = entries_sum(table.data@, row_start as int, row_start + 256);
        let ghost before = exact;
        let mut it: usize = 0;
        proof {
            assert(it * row == 0) by (nonlinear_arith)
                requires
                    it == 0,
            ;
        }
        while it < iterations
            invariant
                a < 8,
                row_start == a * 256,
                it <= iterations,
                row == entries_sum(table.data@, row_start as int, row_start + 256),
                acc as int == exact % 0x1_0000_0000_0000_0000,
                exact == before + it * row,
            decreases iterations - it,
        {
            let ghost at_start = exact;
            let mut b: usize = 0;
            while b < BASE
                invariant
                    a < 8,
                    row_start == a * 256,
                    b <= 256,
                    acc as int == exact % 0x1_0000_0000_0000_0000,
                    exact == at_start + entries_sum(
                        table.data@,
                        row_start as int,
                        row_start + b,
                    ),
                decreases 256 - b,
            {
                let product: u64 = table.data[row_start + b] as u64;
                proof {
                    lemma_add_mod_noop(exact, product as int, 0x1_0000_0000_0000_0000);
                    lemma_small_mod(product as nat, 0x1_0000_0000_0000_0000);
                }
                acc = acc.wrapping_add(product);
                proof {
                    exact = exact + product;
                }
                b += 1;
            }
            proof {
                assert((it + 1) * row == it * row + row) by (nonlinear_arith);
            }
            it += 1;
        }
        proof {
            lemma_entries_sum_split(table.data@, 0, row_start as int, row_start + 256);
            let done = entries_sum(table.data@, 0, row_start as int);
            assert(iterations * (done + row) == iterations * done + iterations * row)
                by (nonlinear_arith);
        }
        a += 1;
    }
    proof {
        if table.wf() {
            lemma_rows_sum(table, 8);
        }
    }
    acc
}

} // verus!
