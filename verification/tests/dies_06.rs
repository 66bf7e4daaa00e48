use adventus_codicis_mmxxiv::dies_06::candidates;
use adventus_codicis_mmxxiv::dies_06::count_looping_candidates;
use adventus_codicis_mmxxiv::dies_06::Data;
use adventus_codicis_mmxxiv::dies_06::Dir;
use adventus_codicis_mmxxiv::dies_06::GridError;
use adventus_codicis_mmxxiv::dies_06::Outcome;

const CANONICAL: &str = "....#.....
.........#
..........
..#.......
.......#..
..........
.#..^.....
........#.
#.........
......#...";

fn parsed(input: &str) -> Data {
    match Data::parse(input) {
        Ok(d) => d,
        Err(e) => panic!("parse failed: {:?}", e),
    }
}

#[test]
fn canonical_part_1_counts_41_cells() {
    let data = parsed(CANONICAL);
    assert_eq!(41, data.solve1());
}

#[test]
fn canonical_part_2_counts_6_placements() {
    let data = parsed(CANONICAL);
    assert_eq!(6, data.solve2());
}

#[test]
fn canonical_pair_is_reproduced() {
    let data = parsed(CANONICAL);
    assert_eq!((41, 6), (data.solve1(), data.solve2()));
}

#[test]
fn reparsing_the_rendered_form_is_idempotent() {
    let data = parsed(CANONICAL);
    let text = String::from_utf8(data.render()).unwrap();
    let again = parsed(&text);
    assert_eq!(data.grid, again.grid);
    assert_eq!(data.guard.pos, again.guard.pos);
    assert_eq!(data.guard.dir, again.guard.dir);
    assert_eq!(data.render(), again.render());
    assert_eq!(data.solve1(), again.solve1());
}

#[test]
fn sequential_and_parallel_search_agree() {
    let data = parsed(CANONICAL);
    let cs = candidates(&data.grid);
    let sequential = count_looping_candidates(&data.grid, &data.guard, &cs);
    assert_eq!(sequential as i32, data.solve2());
    assert_eq!(6, sequential);
}

#[test]
fn patrol_is_deterministic() {
    let data = parsed(CANONICAL);
    let mut g1 = data.guard.duplicate();
    let mut g2 = data.guard.duplicate();
    let o1 = g1.patrol(&data.grid);
    let o2 = g2.patrol(&data.grid);
    assert_eq!(o1, o2);
    assert_eq!(g1.visits, g2.visits);
    assert_eq!(g1.total_moves, g2.total_moves);
}

#[test]
fn total_steps_grow_and_stay_capped() {
    let data = parsed(CANONICAL);
    let mut guard = data.guard.duplicate();
    let before = guard.total_moves;
    guard.patrol(&data.grid);
    assert!(guard.total_moves >= before);
    assert!(guard.total_moves <= 6001);
}

#[test]
fn boundary_exit_in_zero_moves() {
    let data = parsed("^.
..");
    let mut guard = data.guard.duplicate();
    let outcome = guard.patrol(&data.grid);
    assert_eq!(Outcome::Exited, outcome);
    assert_eq!(0, guard.total_moves);
}

#[test]
fn boundary_exit_in_one_move() {
    let data = parsed("..
^.");
    let mut guard = data.guard.duplicate();
    let outcome = guard.patrol(&data.grid);
    assert_eq!(Outcome::Exited, outcome);
    assert_eq!(1, guard.total_moves);
}

#[test]
fn long_period_cycle_is_still_classified_looped() {
    // A closed rectangular beat of twelve committed moves per lap: longer
    // than the revisit threshold times the four headings, yet far below
    // the hard step cap.
    let data = parsed(".#....
.>...#
......
......
#.....
....#.");
    let mut guard = data.guard.duplicate();
    let outcome = guard.patrol(&data.grid);
    assert_eq!(Outcome::Looped, outcome);
    assert!(guard.total_moves < 6000);
}

#[test]
fn surrounded_guard_is_looped() {
    let data = parsed(".#.
#^#
.#.");
    let mut guard = data.guard.duplicate();
    assert_eq!(Outcome::Looped, guard.patrol(&data.grid));
    assert_eq!(0, guard.total_moves);
}

#[test]
fn missing_agent_is_reported() {
    assert!(matches!(Data::parse("..\n.."), Err(GridError::MissingAgent)));
}

#[test]
fn multiple_agents_are_reported_with_positions() {
    match Data::parse("^.\n.v") {
        Err(GridError::MultipleAgents(ps)) => assert_eq!(vec![(0, 0), (1, 1)], ps),
        other => panic!("expected MultipleAgents, got {:?}", other.err()),
    }
}

#[test]
fn malformed_grid_is_reported() {
    assert!(matches!(Data::parse("^.\n."), Err(GridError::MalformedGrid)));
    assert!(matches!(Data::parse("^..\n..."), Err(GridError::MalformedGrid)));
}

#[test]
fn down_marker_is_case_insensitive() {
    let lower = parsed("..\nv.");
    let upper = parsed("..\nV.");
    assert_eq!(Dir::S, lower.guard.dir);
    assert_eq!(Dir::S, upper.guard.dir);
}

#[test]
fn empty_text_has_no_agent() {
    assert!(matches!(Data::parse(""), Err(GridError::MissingAgent)));
}
