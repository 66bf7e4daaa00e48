use adventus_codicis_mmxxiv::dies_04::Data;
use adventus_codicis_mmxxiv::dies_04::ShapeError;

#[test]
fn part_2_example() {
    let input_a = ".M.S......
..A..MSMS.
.M.S.MAA..
..A.ASMSM.
.M.S.M....
..........
S.S.S.S.S.
.A.A.A.A..
M.M.M.M.M.
..........";
    let input_b = "MMMSXXMASM
MSAMXMSMSA
AMXSXMAAMM
MSAMASMSMX
XMASAMXAMM
XXAMMXXAMA
SMSMSASXSS
SAXAMASAAA
MAMMMXMMMM
MXMXAXMASX";
    assert_eq!(9, Data::parse(input_a).unwrap().solve2());
    assert_eq!(9, Data::parse(input_b).unwrap().solve2());
    ();
}

#[test]
fn part_1_example() {
    let input = "MMMSXXMASM
MSAMXMSMSA
AMXSXMAAMM
MSAMASMSMX
XMASAMXAMM
XXAMMXXAMA
SMSMSASXSS
SAXAMASAAA
MAMMMXMMMM
MXMXAXMASX";
    assert_eq!(18, Data::parse(input).unwrap().solve1());
}

#[test]
fn lower_case_input_counts_too() {
    let input = "xmas
masx
amsa
sxms";
    let data = Data::parse(input).unwrap();
    assert_eq!(2, data.solve1());
}

#[test]
fn shape_errors() {
    assert!(matches!(Data::parse(""), Err(ShapeError::NotRectangular)));
    assert!(matches!(Data::parse("AB\nA"), Err(ShapeError::NotRectangular)));
    assert!(matches!(Data::parse("ABC\nDEF"), Err(ShapeError::NotSquare)));
}
