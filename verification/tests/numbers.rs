use bignum_project::cache::AlignedTable;
use bignum_project::schoolbook::{accumulate, block_bounds, partial_product, propagate_carry};
use bignum_project::symbolic_number::SymbolicNumber;

fn number(digits: &[u8]) -> SymbolicNumber {
    SymbolicNumber { digits: digits.to_vec() }
}

#[test]
fn from_u128_zero_is_one_zero_digit() {
    assert_eq!(SymbolicNumber::from_u128(0).digits, vec![0u8]);
}

#[test]
fn from_u128_small_values() {
    assert_eq!(SymbolicNumber::from_u128(1).digits, vec![1u8]);
    assert_eq!(SymbolicNumber::from_u128(255).digits, vec![255u8]);
    assert_eq!(SymbolicNumber::from_u128(256).digits, vec![0u8, 1]);
    assert_eq!(SymbolicNumber::from_u128(0x0102_03).digits, vec![3u8, 2, 1]);
    assert_eq!(SymbolicNumber::from_u128(1 << 64).digits, vec![0u8, 0, 0, 0, 0, 0, 0, 0, 1]);
}

#[test]
fn from_u128_largest_value() {
    assert_eq!(SymbolicNumber::from_u128(u128::MAX).digits, vec![255u8; 16]);
}

#[test]
fn clone_keeps_the_digits() {
    let n = SymbolicNumber::from_u128(123_456_789);
    assert_eq!(n.clone().digits, n.digits);
}

#[test]
fn block_bounds_share_out_rows() {
    assert_eq!(block_bounds(10, 4, 0), (0, 3));
    assert_eq!(block_bounds(10, 4, 1), (3, 6));
    assert_eq!(block_bounds(10, 4, 2), (6, 9));
    assert_eq!(block_bounds(10, 4, 3), (9, 10));
    assert_eq!(block_bounds(10, 1, 0), (0, 10));
    assert_eq!(block_bounds(8, 4, 3), (6, 8));
}

#[test]
fn block_bounds_more_workers_than_rows() {
    assert_eq!(block_bounds(3, 8, 0), (0, 1));
    assert_eq!(block_bounds(3, 8, 2), (2, 3));
    assert_eq!(block_bounds(3, 8, 3), (3, 3));
    assert_eq!(block_bounds(3, 8, 7), (3, 3));
    assert_eq!(block_bounds(0, 8, 0), (0, 0));
    assert_eq!(block_bounds(9, 8, 4), (8, 9));
    assert_eq!(block_bounds(9, 8, 5), (9, 9));
}

#[test]
fn block_bounds_at_the_limits() {
    assert_eq!(block_bounds(usize::MAX, usize::MAX, usize::MAX), (usize::MAX, usize::MAX));
    assert_eq!(block_bounds(usize::MAX, 1, 0), (0, usize::MAX));
    assert_eq!(block_bounds(usize::MAX, 1, usize::MAX), (usize::MAX, usize::MAX));
    assert_eq!(block_bounds(usize::MAX, 2, 1), (usize::MAX / 2 + 1, usize::MAX));
}

#[test]
fn blocks_cover_every_row_once() {
    for n in 0..40usize {
        for workers in 1..12usize {
            let mut next = 0usize;
            for t in 0..workers {
                let (start, end) = block_bounds(n, workers, t);
                assert_eq!(start, next);
                assert!(start <= end && end <= n);
                next = end;
            }
            assert_eq!(next, n);
        }
    }
}

#[test]
fn partial_product_holds_column_sums() {
    let table = AlignedTable::new();
    let a = vec![2u8, 3, 5];
    let b = vec![7u8, 11];
    assert_eq!(partial_product(&a, &b, &table, 0, 3), vec![14u128, 43, 68, 55, 0]);
    assert_eq!(partial_product(&a, &b, &table, 0, 1), vec![14u128, 22, 0, 0, 0]);
    assert_eq!(partial_product(&a, &b, &table, 1, 3), vec![0u128, 21, 68, 55, 0]);
    assert_eq!(partial_product(&a, &b, &table, 2, 2), vec![0u128; 5]);
}

#[test]
fn partial_product_of_largest_digits() {
    let table = AlignedTable::new();
    let a = vec![255u8; 3];
    let b = vec![255u8; 3];
    assert_eq!(
        partial_product(&a, &b, &table, 0, 3),
        vec![65025u128, 130050, 195075, 130050, 65025, 0]
    );
}

#[test]
fn accumulate_adds_position_by_position() {
    let mut result = vec![1u128, 2, 3];
    accumulate(&mut result, &vec![10u128, 20, 30]);
    assert_eq!(result, vec![11u128, 22, 33]);
    accumulate(&mut result, &vec![0u128, 0, 0]);
    assert_eq!(result, vec![11u128, 22, 33]);
}

#[test]
fn propagate_carry_reduces_columns() {
    assert_eq!(propagate_carry(&vec![]), Vec::<u8>::new());
    assert_eq!(propagate_carry(&vec![0u128, 0]), vec![0u8, 0]);
    assert_eq!(propagate_carry(&vec![255u128, 255]), vec![255u8, 255]);
    assert_eq!(propagate_carry(&vec![256u128, 0]), vec![0u8, 1]);
    assert_eq!(propagate_carry(&vec![14u128, 43, 68, 55, 0]), vec![14u8, 43, 68, 55, 0]);
    assert_eq!(propagate_carry(&vec![65025u128, 130050, 65025, 0]), vec![1u8, 0, 254, 255]);
}

#[test]
fn propagate_carry_writes_out_what_is_left() {
    assert_eq!(propagate_carry(&vec![256u128]), vec![0u8, 1]);
    assert_eq!(propagate_carry(&vec![65536u128 + 5]), vec![5u8, 0, 1]);
    assert_eq!(propagate_carry(&vec![u128::MAX]), vec![255u8; 16]);
    assert_eq!(
        propagate_carry(&vec![u128::MAX, u128::MAX]),
        {
            let mut expected = vec![255u8];
            expected.push(254);
            expected.extend(vec![255u8; 14]);
            expected.push(0);
            expected.push(1);
            expected
        }
    );
}

#[test]
fn multiply_small_numbers() {
    let table = AlignedTable::new();
    let a = SymbolicNumber::from_u128(123);
    let b = SymbolicNumber::from_u128(456);
    assert_eq!(a.multiply_parallel(&b, &table, 4).digits, vec![24u8, 219, 0]);
}

#[test]
fn multiply_keeps_one_digit_for_each_digit_of_the_operands() {
    let table = AlignedTable::new();
    let a = number(&[255, 255]);
    let b = number(&[255, 255, 255]);
    let product = a.multiply_parallel(&b, &table, 3);
    assert_eq!(product.digits, vec![1u8, 0, 255, 254, 255]);
    let c = number(&[2, 0, 0]);
    let d = number(&[3, 0]);
    assert_eq!(c.multiply_parallel(&d, &table, 2).digits, vec![6u8, 0, 0, 0, 0]);
}

#[test]
fn multiply_is_the_same_for_any_number_of_workers() {
    let table = AlignedTable::new();
    let a = number(&[255, 255, 15, 99, 45, 94, 199, 107, 5]);
    let expected: Vec<u8> =
        vec![1, 0, 224, 57, 165, 164, 102, 226, 160, 191, 164, 92, 195, 241, 41, 99, 29, 0];
    let single = a.multiply_parallel(&a, &table, 1).digits;
    assert_eq!(single, expected);
    for workers in [2usize, 3, 4, 5, 8, 9, 10, 64, 1000] {
        assert_eq!(a.multiply_parallel(&a, &table, workers).digits, single);
    }
    assert_eq!(a.multiply_parallel(&a, &table, usize::MAX).digits, single);
}

#[test]
fn multiply_one_worker_and_eight_agree() {
    let table = AlignedTable::new();
    let a = SymbolicNumber::from_u128(0xdead_beef_0123_4567_89ab_cdef_1357_9bdf);
    let b = SymbolicNumber::from_u128(0xffff_ffff_ffff_ffff_ffff_ffff_ffff_fffe);
    let one = a.multiply_parallel(&b, &table, 1);
    let eight = a.multiply_parallel(&b, &table, 8);
    assert_eq!(one.digits, eight.digits);
    assert_eq!(one.digits.len(), 32);
}

#[test]
fn multiply_by_zero_is_zero() {
    let table = AlignedTable::new();
    let a = SymbolicNumber::from_u128(987_654_321_987_654_321);
    let zero = SymbolicNumber::from_u128(0);
    let n = a.digits.len();
    assert_eq!(a.multiply_parallel(&zero, &table, 4).digits, vec![0u8; n + 1]);
    assert_eq!(zero.multiply_parallel(&a, &table, 4).digits, vec![0u8; n + 1]);
    assert_eq!(zero.multiply_parallel(&zero, &table, 4).digits, vec![0u8, 0]);
}

#[test]
fn multiply_by_one_keeps_the_digits() {
    let table = AlignedTable::new();
    let a = SymbolicNumber::from_u128(987_654_321_987_654_321);
    let one = number(&[1]);
    let mut expected = a.digits.clone();
    expected.push(0);
    assert_eq!(a.multiply_parallel(&one, &table, 4).digits, expected);
    assert_eq!(one.multiply_parallel(&a, &table, 4).digits, expected);
}

#[test]
fn multiply_commutes() {
    let table = AlignedTable::new();
    let a = SymbolicNumber::from_u128(0x0123_4567_89ab_cdef);
    let b = SymbolicNumber::from_u128(0xfedc_ba98_7654_3210_0f1e_2d3c);
    let ab = a.multiply_parallel(&b, &table, 3);
    let ba = b.multiply_parallel(&a, &table, 5);
    assert_eq!(ab.digits, ba.digits);
    let exact: u128 = 0x0123_4567_89ab_cdef * 0xffff_ffff;
    let c = SymbolicNumber::from_u128(0xffff_ffff);
    let mut expected = SymbolicNumber::from_u128(exact).digits;
    expected.resize(a.digits.len() + c.digits.len(), 0);
    assert_eq!(a.multiply_parallel(&c, &table, 2).digits, expected);
    assert_eq!(c.multiply_parallel(&a, &table, 2).digits, expected);
}

#[test]
fn multiply_without_digits() {
    let table = AlignedTable::new();
    let none = number(&[]);
    let a = number(&[9, 9]);
    assert_eq!(none.multiply_parallel(&a, &table, 4).digits, vec![0u8, 0]);
    assert_eq!(a.multiply_parallel(&none, &table, 4).digits, vec![0u8, 0]);
    assert_eq!(none.multiply_parallel(&none, &table, 4).digits, Vec::<u8>::new());
}

#[test]
fn multiply_long_runs_of_largest_digits() {
    let table = AlignedTable::new();
    let a = number(&vec![255u8; 300]);
    let b = number(&vec![255u8; 200]);
    let product = a.multiply_parallel(&b, &table, 7).digits;
    assert_eq!(product.len(), 500);
    let mut expected = vec![0u8; 500];
    expected[0] = 1;
    for k in 200..300 {
        expected[k] = 255;
    }
    expected[300] = 254;
    for k in 301..500 {
        expected[k] = 255;
    }
    assert_eq!(product, expected);
}

#[test]
fn workers_combined_by_hand_give_the_product() {
    let table = AlignedTable::new();
    let a = vec![255u8, 255, 15, 99, 45, 94, 199, 107, 5];
    let b = vec![17u8, 0, 200, 255];
    let direct = number(&a).multiply_parallel(&number(&b), &table, 1).digits;
    for workers in [1usize, 2, 4, 9, 20] {
        let mut combined = vec![0u128; a.len() + b.len()];
        for t in 0..workers {
            let (start, end) = block_bounds(a.len(), workers, t);
            if start < end {
                let partial = partial_product(&a, &b, &table, start, end);
                accumulate(&mut combined, &partial);
            }
        }
        assert_eq!(propagate_carry(&combined), direct);
    }
}
