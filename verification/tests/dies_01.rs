use adventus_codicis_mmxxiv::dies_01::Data;
use adventus_codicis_mmxxiv::dies_01::PairError;

const EXAMPLE: &str = "3   4
4   3
2   5
1   3
3   9
3   3";

#[test]
fn example_distance_is_11() {
    let data = Data::parse(EXAMPLE).unwrap();
    assert_eq!(11, data.solve1());
}

#[test]
fn example_similarity_is_31() {
    let data = Data::parse(EXAMPLE).unwrap();
    assert_eq!(31, data.solve2());
}

#[test]
fn a_line_without_two_values_is_rejected() {
    assert!(matches!(Data::parse("3 4\n7\n1 2"), Err(PairError::BadLine)));
    assert!(matches!(Data::parse("3 4 5"), Err(PairError::BadLine)));
}

#[test]
fn pairing_is_by_rank_not_position() {
    let data = Data::parse("9 1\n1 9").unwrap();
    assert_eq!(0, data.solve1());
}
