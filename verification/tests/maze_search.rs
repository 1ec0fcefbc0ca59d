use gridpath::maze;
use gridpath::maze::MazeError;

#[test]
fn one_mandatory_turn_in_an_open_maze() {
    // 5x5 open field: 8 straight moves plus exactly one turn
    let input = "....E\n.....\n.....\n.....\nS....";
    assert_eq!(maze::part1(input), Ok(1008));
}

#[test]
fn only_the_single_turn_route_counts() {
    // turning first and then running straight costs a second turn, so the
    // single right-then-up elbow of 9 cells is the only optimal route
    let input = "....E\n.....\n.....\n.....\nS....";
    assert_eq!(maze::part2(input), Ok(9));
}

#[test]
fn walled_maze_minimal_cost_and_best_cells() {
    let input = "###############\n#.......#....E#\n#.#.###.#.###.#\n#.....#.#...#.#\n#.###.#####.#.#\n#.#.#.......#.#\n#.#.#####.###.#\n#...........#.#\n###.#.#####.#.#\n#...#.....#.#.#\n#.#.#.###.#.#.#\n#.....#...#.#.#\n#.###.#.#.#.#.#\n#S..#.....#...#\n###############";
    assert_eq!(maze::part1(input), Ok(7036));
    assert_eq!(maze::part2(input), Ok(45));
}

#[test]
fn start_next_to_end() {
    let input = "SE";
    assert_eq!(maze::part1(input), Ok(1));
    assert_eq!(maze::part2(input), Ok(2));
}

#[test]
fn unreachable_end_is_reported() {
    assert_eq!(maze::part1("S#E"), Err(MazeError::NoPath));
    assert_eq!(maze::part2("S#E"), Err(MazeError::NoPath));
}

#[test]
fn missing_markers_are_reported() {
    assert_eq!(maze::part1("...\n..."), Err(MazeError::NoStart));
    assert_eq!(maze::part1("S..\n..."), Err(MazeError::NoEnd));
    assert_eq!(maze::part2("..."), Err(MazeError::NoStart));
}

#[test]
fn ragged_maze_is_rejected() {
    assert_eq!(maze::part1("S.\n.E."), Err(MazeError::Ragged));
}

#[test]
fn parse_locates_both_markers() {
    let (grid, start, end) = maze::parse("S.\n.E").unwrap();
    assert_eq!(start, (0, 0));
    assert_eq!(end, (1, 1));
    assert_eq!(grid.rows, 2);
    assert_eq!(grid.columns, 2);
}
