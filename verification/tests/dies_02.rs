use adventus_codicis_mmxxiv::dies_02::Data;

const EXAMPLE: &str = "7 6 4 2 1
1 2 7 8 9
9 7 6 2 1
1 3 2 4 5
8 6 4 4 1
1 3 6 7 9";

#[test]
fn example_counts_two_safe_reports() {
    let data = Data::parse(EXAMPLE);
    assert_eq!(2, data.solve1());
}

#[test]
fn example_counts_four_dampened_reports() {
    let data = Data::parse(EXAMPLE);
    assert_eq!(4, data.solve2());
}

#[test]
fn unreadable_tokens_are_skipped() {
    let data = Data::parse("1 x 2\n");
    assert_eq!(vec![vec![1, 2]], data.reports);
}

#[test]
fn single_level_report_is_safe() {
    let data = Data::parse("7");
    assert_eq!(1, data.solve1());
}
