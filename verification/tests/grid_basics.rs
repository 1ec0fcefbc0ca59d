use gridpath::grid::euclid_distance;
use gridpath::grid::Direction;
use gridpath::grid::Grid;
use gridpath::grid::GridError;

#[test]
fn construct_round_trips_every_cell() {
    let text = "abc\ndef";
    let grid = Grid::construct(text, |c| c).unwrap();
    assert_eq!(grid.rows, 2);
    assert_eq!(grid.columns, 3);
    let source = ["abc", "def"];
    for r in 0..2 {
        for c in 0..3 {
            let expected = source[r].as_bytes()[c] as char;
            assert_eq!(grid.get((r, c)), Some(expected));
        }
    }
}

#[test]
fn construct_maps_cells() {
    let grid = Grid::construct("12\n34", |c| (c as u8) - b'0').unwrap();
    assert_eq!(grid.get((0, 0)), Some(1));
    assert_eq!(grid.get((0, 1)), Some(2));
    assert_eq!(grid.get((1, 0)), Some(3));
    assert_eq!(grid.get((1, 1)), Some(4));
}

#[test]
fn construct_rejects_ragged_rows() {
    let res = Grid::construct("abc\nde", |c| c);
    assert_eq!(res.err(), Some(GridError::RaggedRows));
}

#[test]
fn construct_empty_input() {
    let grid = Grid::<char>::construct("", |c| c).unwrap();
    assert_eq!(grid.rows, 0);
    assert_eq!(grid.columns, 0);
    assert_eq!(grid.get((0, 0)), None);
}

#[test]
fn construct_trailing_newline_closes_last_line() {
    let grid = Grid::construct("ab\ncd\n", |c| c).unwrap();
    assert_eq!(grid.rows, 2);
    assert_eq!(grid.columns, 2);
    assert_eq!(grid.get((1, 1)), Some('d'));
}

#[test]
fn get_is_none_outside_the_grid() {
    let grid = Grid::construct("ab\ncd", |c| c).unwrap();
    assert_eq!(grid.get((2, 0)), None);
    assert_eq!(grid.get((0, 2)), None);
}

#[test]
fn get_i32_rejects_negative_probes() {
    let grid = Grid::construct("ab\ncd", |c| c).unwrap();
    assert_eq!(grid.get_i32((-1, 0)), None);
    assert_eq!(grid.get_i32((0, -1)), None);
    assert_eq!(grid.get_i32((1, 1)), Some('d'));
    assert_eq!(grid.get_i32((2, 0)), None);
}

#[test]
fn set_writes_in_range_and_drops_out_of_range() {
    let mut grid = Grid::construct("ab\ncd", |c| c).unwrap();
    grid.set((0, 1), 'x');
    assert_eq!(grid.get((0, 1)), Some('x'));
    grid.set((5, 5), 'y');
    for r in 0..2 {
        for c in 0..2 {
            assert_ne!(grid.get((r, c)), Some('y'));
        }
    }
}

#[test]
fn manual_construct_keeps_the_values() {
    let grid = Grid::manual_construct(vec![1u8, 2, 3, 4, 5, 6], 2, 3);
    assert_eq!(grid.get((0, 2)), Some(3));
    assert_eq!(grid.get((1, 0)), Some(4));
}

#[test]
fn search_finds_the_first_match_in_row_major_order() {
    let grid = Grid::construct("ab\nba", |c| c).unwrap();
    assert_eq!(grid.search('b'), Some((0, 1)));
    assert_eq!(grid.search('z'), None);
}

#[test]
fn next_position_is_none_exactly_at_the_edges() {
    let grid = Grid::construct("ab\ncd", |c| c).unwrap();
    assert_eq!(grid.next_position((0, 0), Direction::Up), None);
    assert_eq!(grid.next_position((0, 0), Direction::Left), None);
    assert_eq!(grid.next_position((0, 0), Direction::Right), Some((0, 1)));
    assert_eq!(grid.next_position((0, 0), Direction::Down), Some((1, 0)));
    assert_eq!(grid.next_position((1, 1), Direction::Down), None);
    assert_eq!(grid.next_position((1, 1), Direction::Right), None);
    assert_eq!(grid.next_position((1, 1), Direction::Up), Some((0, 1)));
    assert_eq!(grid.next_position((1, 1), Direction::Left), Some((1, 0)));
}

#[test]
fn adjacent_reports_the_four_next_positions_in_order() {
    let grid = Grid::construct("abc\ndef\nghi", |c| c).unwrap();
    let p = (1, 1);
    let neighbors = grid.adjacent(p);
    assert_eq!(neighbors[0], grid.next_position(p, Direction::Up));
    assert_eq!(neighbors[1], grid.next_position(p, Direction::Right));
    assert_eq!(neighbors[2], grid.next_position(p, Direction::Down));
    assert_eq!(neighbors[3], grid.next_position(p, Direction::Left));
    assert_eq!(neighbors[0], Some((0, 1)));
    assert_eq!(neighbors[1], Some((1, 2)));
    assert_eq!(neighbors[2], Some((2, 1)));
    assert_eq!(neighbors[3], Some((1, 0)));
}

#[test]
fn adjacent_one_pairs_neighbors_with_their_values() {
    let grid = Grid::construct("abc\ndef\nghi", |c| c).unwrap();
    let pairs = grid.adjacent_one((1, 1));
    assert_eq!(pairs[0], (Some((0, 1)), Some('b')));
    assert_eq!(pairs[1], (Some((1, 2)), Some('f')));
    assert_eq!(pairs[2], (Some((2, 1)), Some('h')));
    assert_eq!(pairs[3], (Some((1, 0)), Some('d')));
    let corner = grid.adjacent_one((0, 0));
    assert_eq!(corner[0], (None, None));
    assert_eq!(corner[3], (None, None));
}

#[test]
fn iter_yields_every_cell_once_in_row_major_order() {
    let grid = Grid::construct("ab\ncd", |c| c).unwrap();
    let cells = grid.iter();
    assert_eq!(
        cells,
        vec![((0, 0), 'a'), ((0, 1), 'b'), ((1, 0), 'c'), ((1, 1), 'd')]
    );
}

#[test]
fn turn_right_cycles_in_four_steps() {
    for d in [Direction::Up, Direction::Right, Direction::Down, Direction::Left] {
        assert_eq!(d.turn_right().turn_right().turn_right().turn_right(), d);
    }
    assert_eq!(Direction::Up.turn_right(), Direction::Right);
    assert_eq!(Direction::Right.turn_right(), Direction::Down);
    assert_eq!(Direction::Down.turn_right(), Direction::Left);
    assert_eq!(Direction::Left.turn_right(), Direction::Up);
}

#[test]
fn opposite_undoes_itself() {
    for d in [Direction::Up, Direction::Right, Direction::Down, Direction::Left] {
        assert_eq!(d.opposite().opposite(), d);
    }
    assert_eq!(Direction::Up.opposite(), Direction::Down);
    assert_eq!(Direction::Right.opposite(), Direction::Left);
}

#[test]
fn euclid_distance_sums_the_axis_gaps() {
    assert_eq!(euclid_distance(&(0, 0), &(3, 4)), 7);
    assert_eq!(euclid_distance(&(5, 2), &(1, 9)), 11);
    assert_eq!(euclid_distance(&(2, 2), &(2, 2)), 0);
}
