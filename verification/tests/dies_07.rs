use adventus_codicis_mmxxiv::dies_07::Data;
use adventus_codicis_mmxxiv::dies_07::EqError;
use adventus_codicis_mmxxiv::dies_07::Fun;

const EXAMPLE: &str = "190: 10 19
3267: 81 40 27
83: 17 5
156: 15 6
7290: 6 8 6 15
161011: 16 10 13
192: 17 8 14
21037: 9 7 18 13
292: 11 6 16 20";

#[test]
fn example_part_1_sums_3749() {
    let data = Data::parse(EXAMPLE).unwrap();
    assert_eq!(3749, data.solve1());
}

#[test]
fn example_part_2_sums_11387() {
    let data = Data::parse(EXAMPLE).unwrap();
    assert_eq!(11387, data.solve2());
}

#[test]
fn concatenation_appends_digits() {
    assert_eq!(Some(156), Fun::Concat.apply(15, 6));
    assert_eq!(Some(485), Fun::Concat.apply(48, 5));
    assert_eq!(Some(70), Fun::Concat.apply(7, 0));
    assert_eq!(Some(-35), Fun::Concat.apply(-3, 5));
    assert_eq!(None, Fun::Concat.apply(3, -5));
}

#[test]
fn overflowing_operators_yield_nothing() {
    assert_eq!(None, Fun::Add.apply(i64::MAX, 1));
    assert_eq!(None, Fun::Mul.apply(i64::MAX, 2));
    assert_eq!(None, Fun::Concat.apply(i64::MAX, 9));
}

#[test]
fn calibration_errors_are_reported() {
    assert!(matches!(Data::parse("\n190: 10 19"), Err(EqError::MissingCalibration)));
    assert!(matches!(Data::parse("190 10 19"), Err(EqError::InvalidCalibration)));
    assert!(matches!(Data::parse("190: 10 x"), Err(EqError::InvalidOperand)));
}
