use gridpath::trails;
use gridpath::trails::TrailError;

#[test]
fn single_trailhead_reaches_one_summit() {
    let input = "0123\n1234\n8765\n9876";
    assert_eq!(trails::part1(input), Ok(1));
}

#[test]
fn single_trailhead_path_count() {
    let input = "0123\n1234\n8765\n9876";
    assert_eq!(trails::part2(input), Ok(16));
}

#[test]
fn larger_field_scores_and_ratings() {
    let input = "89010123\n78121874\n87430965\n96549874\n45678903\n32019012\n01329801\n10456732";
    assert_eq!(trails::part1(input), Ok(36));
    assert_eq!(trails::part2(input), Ok(81));
}

#[test]
fn rerunning_the_search_changes_nothing() {
    let input = "0123\n1234\n8765\n9876";
    let first = trails::part1(input);
    let second = trails::part1(input);
    assert_eq!(first, second);
    assert_eq!(trails::part2(input), trails::part2(input));
}

#[test]
fn ragged_rows_are_rejected() {
    assert_eq!(trails::part1("012\n01"), Err(TrailError::Ragged));
    assert_eq!(trails::part2("012\n0123"), Err(TrailError::Ragged));
}

#[test]
fn trailhead_score_counts_distinct_summits() {
    let grid = trails::parse("0123\n1234\n8765\n9876").unwrap();
    assert_eq!(trails::trailhead_score(&grid, (0, 0), 9), 1);
    assert_eq!(trails::trailhead_rating(&grid, (0, 0), 9), Some(16));
}

#[test]
fn dead_cells_break_trails() {
    // the '.' cells parse to a height no ascending step can enter
    assert_eq!(trails::part1("012\n.4.\n..."), Ok(0));
}
