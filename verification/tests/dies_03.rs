use adventus_codicis_mmxxiv::dies_03::parser;
use adventus_codicis_mmxxiv::dies_03::Data;
use adventus_codicis_mmxxiv::dies_03::Ix;
use adventus_codicis_mmxxiv::dies_03::IxError;

#[test]
fn example_part_1() {
    let input = "xmul(2,4)%&mul[3,7]!@^do_not_mul(5,5)+mul(32,64]then(mul(11,8)mul(8,5))";
    let data = Data::parse(input).unwrap();
    assert_eq!(161, data.solve1().unwrap());
}

#[test]
fn example_part_2() {
    let input = "xmul(2,4)&mul[3,7]!^don't()_mul(5,5)+mul(32,64](mul(11,8)undo()?mul(8,5))";
    let data = Data::parse(input).unwrap();
    assert_eq!(48, data.solve2().unwrap());
}

#[test]
fn interp_part_1() {
    let data = Data::from(vec![
        Ix::Mul(2, 4),
        Ix::Mul(5, 5),
        Ix::Mul(11, 8),
        Ix::Mul(8, 5),
    ]);
    assert_eq!(161, data.solve2().unwrap())
}

#[test]
fn interp_part_2() {
    let data = Data::from(vec![
        Ix::Mul(2, 4),
        Ix::Dont,
        Ix::Mul(5, 5),
        Ix::Mul(11, 8),
        Ix::Do,
        Ix::Mul(8, 5),
    ]);
    assert_eq!(48, data.solve2().unwrap())
}

#[test]
fn part_1() {
    let input = "xmul(2,4)%&mul[3,7]!@^do_not_mul(5,5)+mul(32,64]then(mul(11,8)mul(8,5))";
    let expected = vec![Ix::Mul(2, 4), Ix::Mul(5, 5), Ix::Mul(11, 8), Ix::Mul(8, 5)];
    assert_eq!(expected, parse_with_regex(input).unwrap());
    assert_eq!(expected, parser::parse(input));
}

#[test]
fn part_2() {
    let input = "xmul(2,4)&mul[3,7]!^don't()_mul(5,5)+mul(32,64](mul(11,8)undo()?mul(8,5))";
    let expected = vec![
        Ix::Mul(2, 4),
        Ix::Dont,
        Ix::Mul(5, 5),
        Ix::Mul(11, 8),
        Ix::Do,
        Ix::Mul(8, 5),
    ];
    assert_eq!(expected, parse_with_regex(input).unwrap());
    assert_eq!(expected, parser::parse(input));
}

fn parse_with_regex(input: &str) -> Result<Vec<Ix>, regex::Error> {
    let re = r#"(?x)
    (?P<do>do\(\))              | # Match "do()"
    (?P<dont>don't\(\))         | # Match "don't()"
    (?P<mul>mul\((\d+),(\d+)\))   # Match "mul(d1,d2)"
    "#;
    let re = regex::Regex::new(re)?;
    let mut ixs: Vec<Ix> = Vec::new();
    for cap in re.captures_iter(input) {
        let ix = if cap.name("do").is_some() {
            Ix::Do
        } else if cap.name("dont").is_some() {
            Ix::Dont
        } else if cap.name("mul").is_some() {
            let left: i32 = cap.get(4).unwrap().as_str().parse().unwrap();
            let right: i32 = cap.get(5).unwrap().as_str().parse().unwrap();
            Ix::Mul(left, right)
        } else {
            unreachable!();
        };
        ixs.push(ix);
    }
    Ok(ixs)
}

#[test]
fn incomplete_mul_is_skipped() {
    assert_eq!(Vec::<Ix>::new(), parser::parse("mul(2,4"));
    assert_eq!(vec![Ix::Mul(3, 7)], parser::parse("mul(2,4]mul(3,7)"));
}

#[test]
fn overlong_number_is_no_mul() {
    assert_eq!(Vec::<Ix>::new(), parser::parse("mul(99999999999,2)"));
}

#[test]
fn sum_overflow_is_reported() {
    let data = Data::parse("mul(2000000000,2000000000)").unwrap();
    assert_eq!(Err(IxError::Overflow), data.solve1());
    assert_eq!(Err(IxError::Overflow), data.solve2());
}

#[test]
fn noise_prefix_still_announces_keyword() {
    assert_eq!(vec![Ix::Do], parser::parse("dodo()"));
    assert_eq!(vec![Ix::Mul(2, 4)], parser::parse("xmul(2,4)"));
}

#[test]
fn empty_input_yields_no_instructions() {
    assert_eq!(Vec::<Ix>::new(), parser::parse(""));
}
