use bignum_project::cache::AlignedTable;
use bignum_project::decimal_conversion::{
    collect_decimal_digits, digit_text, digit_value, divide_digits, string_to_symbolic_number,
    symbolic_number_to_string,
};
use bignum_project::symbolic_number::SymbolicNumber;

fn number(digits: &[u8]) -> SymbolicNumber {
    SymbolicNumber { digits: digits.to_vec() }
}

fn times(x: &str, y: &str, workers: usize) -> String {
    let table = AlignedTable::new();
    let a = string_to_symbolic_number(x);
    let b = string_to_symbolic_number(y);
    symbolic_number_to_string(&a.multiply_parallel(&b, &table, workers))
}

#[test]
fn digit_value_tells_digits_apart() {
    assert_eq!(digit_value('0'), Some(0));
    assert_eq!(digit_value('7'), Some(7));
    assert_eq!(digit_value('9'), Some(9));
    assert_eq!(digit_value('/'), None);
    assert_eq!(digit_value(':'), None);
    assert_eq!(digit_value('a'), None);
    assert_eq!(digit_value(' '), None);
    assert_eq!(digit_value('-'), None);
    assert_eq!(digit_value('\u{0663}'), None);
    assert_eq!(digit_value('\u{ff11}'), None);
}

#[test]
fn digit_text_names_each_digit() {
    let all: Vec<&str> = (0u8..10).map(digit_text).collect();
    assert_eq!(all, vec!["0", "1", "2", "3", "4", "5", "6", "7", "8", "9"]);
}

#[test]
fn collect_decimal_digits_keeps_digits_in_order() {
    assert_eq!(collect_decimal_digits("123"), vec![1u8, 2, 3]);
    assert_eq!(collect_decimal_digits("1a2b3"), vec![1u8, 2, 3]);
    assert_eq!(collect_decimal_digits(" -0042\n"), vec![0u8, 0, 4, 2]);
    assert_eq!(collect_decimal_digits("abc"), Vec::<u8>::new());
    assert_eq!(collect_decimal_digits(""), Vec::<u8>::new());
    assert_eq!(collect_decimal_digits("1\u{e9}2\u{4e2d}3\u{1f600}4"), vec![1u8, 2, 3, 4]);
}

#[test]
fn divide_digits_by_256() {
    assert_eq!(divide_digits(&vec![1, 2, 3], 10, 256), (vec![], 123));
    assert_eq!(divide_digits(&vec![2, 5, 6], 10, 256), (vec![1], 0));
    assert_eq!(divide_digits(&vec![6, 5, 5, 3, 5], 10, 256), (vec![2, 5, 5], 255));
    assert_eq!(divide_digits(&vec![0, 0, 0], 10, 256), (vec![], 0));
    assert_eq!(divide_digits(&vec![0, 0, 5, 1, 2], 10, 256), (vec![2], 0));
    assert_eq!(divide_digits(&vec![], 10, 256), (vec![], 0));
}

#[test]
fn divide_digits_by_10() {
    assert_eq!(divide_digits(&vec![1, 0], 256, 10), (vec![25], 6));
    assert_eq!(divide_digits(&vec![255], 256, 10), (vec![25], 5));
    assert_eq!(divide_digits(&vec![9], 256, 10), (vec![], 9));
    assert_eq!(divide_digits(&vec![255, 255], 256, 10), (vec![25, 153], 5));
    assert_eq!(divide_digits(&vec![0, 0], 256, 10), (vec![], 0));
}

#[test]
fn parse_small_numbers() {
    assert_eq!(string_to_symbolic_number("0").digits, vec![0u8]);
    assert_eq!(string_to_symbolic_number("7").digits, vec![7u8]);
    assert_eq!(string_to_symbolic_number("123").digits, vec![123u8]);
    assert_eq!(string_to_symbolic_number("255").digits, vec![255u8]);
    assert_eq!(string_to_symbolic_number("256").digits, vec![0u8, 1]);
    assert_eq!(string_to_symbolic_number("456").digits, vec![200u8, 1]);
    assert_eq!(string_to_symbolic_number("65535").digits, vec![255u8, 255]);
    assert_eq!(string_to_symbolic_number("65536").digits, vec![0u8, 0, 1]);
}

#[test]
fn parse_agrees_with_from_u128() {
    for text in ["1", "99", "1000", "18446744073709551616", "340282366920938463463374607431768211455"] {
        let value: u128 = text.parse().unwrap();
        assert_eq!(string_to_symbolic_number(text).digits, SymbolicNumber::from_u128(value).digits);
    }
}

#[test]
fn parse_ignores_other_characters() {
    assert_eq!(
        string_to_symbolic_number("1a2b3").digits,
        string_to_symbolic_number("123").digits
    );
    assert_eq!(string_to_symbolic_number("1a2b3").digits, vec![123u8]);
    assert_eq!(string_to_symbolic_number("-256").digits, vec![0u8, 1]);
    assert_eq!(string_to_symbolic_number(" 6 5 5 3 6 ").digits, vec![0u8, 0, 1]);
    assert_eq!(string_to_symbolic_number("1,000").digits, vec![232u8, 3]);
    assert_eq!(string_to_symbolic_number("2.5e6").digits, vec![0u8, 1]);
}

#[test]
fn parse_without_digits_is_zero() {
    assert_eq!(string_to_symbolic_number("").digits, vec![0u8]);
    assert_eq!(string_to_symbolic_number("abc").digits, vec![0u8]);
    assert_eq!(string_to_symbolic_number("+-").digits, vec![0u8]);
}

#[test]
fn parse_drops_leading_zeros() {
    assert_eq!(string_to_symbolic_number("000").digits, vec![0u8]);
    assert_eq!(string_to_symbolic_number("00256").digits, vec![0u8, 1]);
    assert_eq!(string_to_symbolic_number("0000000000000000000000001").digits, vec![1u8]);
}

#[test]
fn format_small_numbers() {
    assert_eq!(symbolic_number_to_string(&number(&[0])), "0");
    assert_eq!(symbolic_number_to_string(&number(&[9])), "9");
    assert_eq!(symbolic_number_to_string(&number(&[10])), "10");
    assert_eq!(symbolic_number_to_string(&number(&[255])), "255");
    assert_eq!(symbolic_number_to_string(&number(&[0, 1])), "256");
    assert_eq!(symbolic_number_to_string(&number(&[1, 0])), "1");
    assert_eq!(symbolic_number_to_string(&number(&[24, 219])), "56088");
    assert_eq!(symbolic_number_to_string(&number(&[255, 255])), "65535");
}

#[test]
fn format_without_digits_is_zero() {
    assert_eq!(symbolic_number_to_string(&number(&[])), "0");
}

#[test]
fn format_leaves_out_leading_zeros() {
    assert_eq!(symbolic_number_to_string(&number(&[0, 0, 0])), "0");
    assert_eq!(symbolic_number_to_string(&number(&[24, 219, 0])), "56088");
    assert_eq!(symbolic_number_to_string(&number(&[1, 0, 0, 0, 0])), "1");
}

#[test]
fn format_largest_u128() {
    assert_eq!(
        symbolic_number_to_string(&SymbolicNumber::from_u128(u128::MAX)),
        "340282366920938463463374607431768211455"
    );
}

#[test]
fn format_agrees_with_std_for_u128() {
    for value in [0u128, 1, 9, 10, 99, 100, 255, 256, 1000, 65535, 65536, 1 << 64, u128::MAX / 3] {
        assert_eq!(
            symbolic_number_to_string(&SymbolicNumber::from_u128(value)),
            format!("{}", value)
        );
    }
}

#[test]
fn parse_of_a_numeral_gives_the_number_back() {
    for value in [0u128, 5, 10, 255, 256, 12345, 1 << 70, u128::MAX] {
        let text = format!("{}", value);
        let parsed = string_to_symbolic_number(&text);
        assert_eq!(parsed.digits, SymbolicNumber::from_u128(value).digits);
        assert_eq!(symbolic_number_to_string(&parsed), text);
    }
}

#[test]
fn round_trip_gives_the_canonical_numeral() {
    let text = |s: &str| symbolic_number_to_string(&string_to_symbolic_number(s));
    assert_eq!(text("007"), "7");
    assert_eq!(text("0"), "0");
    assert_eq!(text("0000"), "0");
    assert_eq!(text("12 345"), "12345");
    assert_eq!(text("-00120x"), "120");
    assert_eq!(text(""), "0");
    assert_eq!(
        text("000123456789012345678901234567890123456789"),
        "123456789012345678901234567890123456789"
    );
}

#[test]
fn product_of_123_and_456() {
    assert_eq!(times("123", "456", 4), "56088");
    assert_eq!(times("123", "456", 1), "56088");
}

#[test]
fn product_with_zero() {
    assert_eq!(times("0", "999999999999999999999999", 4), "0");
    assert_eq!(times("999999999999999999999999", "0", 4), "0");
}

#[test]
fn product_with_one() {
    assert_eq!(times("1", "999999999999999999999999", 4), "999999999999999999999999");
    assert_eq!(times("999999999999999999999999", "1", 4), "999999999999999999999999");
}

#[test]
fn product_of_twenty_nines_squared() {
    assert_eq!(
        times("99999999999999999999", "99999999999999999999", 3),
        "9999999999999999999800000000000000000001"
    );
}

#[test]
fn product_of_two_hundred_digit_numbers() {
    let x = "1234567890123456789012345678901234567890123456789012345678901234567890123456789012345678901234567890";
    let y = "9876543210987654321098765432109876543210987654321098765432109876543210987654321098765432109876543210";
    let expected = "12193263113702179522618503273386678859451150739156363359236761164455788599298790108215200135650052123609205801112635258986434993786160646167367779295611949397448712086533622923332237463801111263526900";
    assert_eq!(x.len(), 100);
    assert_eq!(y.len(), 100);
    assert_eq!(expected.len(), 200);
    for workers in [1usize, 2, 4, 8, 16] {
        assert_eq!(times(x, y, workers), expected);
    }
    assert_eq!(times(y, x, 8), expected);
}

#[test]
fn product_of_u64_values_agrees_with_u128() {
    let values = [0u64, 1, 2, 255, 256, 65535, 4294967295, 4294967296, u64::MAX - 1, u64::MAX];
    for x in values {
        for y in values {
            let expected = format!("{}", x as u128 * y as u128);
            assert_eq!(times(&format!("{}", x), &format!("{}", y), 4), expected);
        }
    }
}
