//! Unweighted reachability search over a grid of single-digit heights: from
//! every cell of height 0, follow 4-connected steps that climb by exactly
//! one until height 9. One query counts the distinct summits a trailhead
//! reaches, the other counts the distinct ascending paths themselves.

use vstd::prelude::*;

use crate::grid::lines_of;
use crate::grid::ragged;
use crate::grid::spec_columns;
use crate::grid::Direction;
use crate::grid::Grid;
use crate::grid::GridError;
use crate::grid::GridModel;
use crate::grid::Point;
use crate::pointset::point_set_insert;
use crate::pointset::point_set_len;
use crate::pointset::point_set_new;
use crate::pointset::point_set_view;

verus! {

/// The height a parsed cell carries: its digit value, or a dead value no
/// ascending trail can enter for any character that is no digit.
pub open spec fn cell_code(c: char) -> u8 {
    if 48 <= c as u32 && c as u32 <= 57 {
        (c as u32 - 48) as u8
    } else {
        255u8
    }
}

/// The height of the in-range cell at `p`.
pub open spec fn cell_of(m: GridModel<u8>, p: Point) -> u8 {
    m.get(p).unwrap()
}

/// Whether the cell at `q` is in range and holds exactly `w`.
pub open spec fn cell_is(m: GridModel<u8>, q: Point, w: u8) -> bool {
    m.get(q) == Some(w)
}

/// The set of cells of height `end` reachable from `p` by 4-connected steps
/// that each climb by exactly one.
pub open spec fn trail_ends(m: GridModel<u8>, p: Point, end: u8) -> Set<Point>
    decreases end - cell_of(m, p)
        when m.get(p) is Some && cell_of(m, p) <= end
{
    let v = cell_of(m, p);
    if v == end {
        set![p]
    } else {
        (match m.next(p, Direction::Up) {
            Some(q) => if cell_is(m, q, (v + 1) as u8) {
                trail_ends(m, q, end)
            } else {
                Set::empty()
            },
            None => Set::empty(),
        }).union(
            match m.next(p, Direction::Right) {
                Some(q) => if cell_is(m, q, (v + 1) as u8) {
                    trail_ends(m, q, end)
                } else {
                    Set::empty()
                },
                None => Set::empty(),
            },
        ).union(
            match m.next(p, Direction::Down) {
                Some(q) => if cell_is(m, q, (v + 1) as u8) {
                    trail_ends(m, q, end)
                } else {
                    Set::empty()
                },
                None => Set::empty(),
            },
        ).union(
            match m.next(p, Direction::Left) {
                Some(q) => if cell_is(m, q, (v + 1) as u8) {
                    trail_ends(m, q, end)
                } else {
                    Set::empty()
                },
                None => Set::empty(),
            },
        )
    }
}

/// The number of distinct ascending paths from `p` to any cell of height
/// `end`, stepping 4-connected and climbing by exactly one each step.
pub open spec fn trail_rating(m: GridModel<u8>, p: Point, end: u8) -> nat
    decreases end - cell_of(m, p)
        when m.get(p) is Some && cell_of(m, p) <= end
{
    let v = cell_of(m, p);
    if v == end {
        1
    } else {
        (match m.next(p, Direction::Up) {
            Some(q) => if cell_is(m, q, (v + 1) as u8) {
                trail_rating(m, q, end)
            } else {
                0
            },
            None => 0,
        }) + (match m.next(p, Direction::Right) {
            Some(q) => if cell_is(m, q, (v + 1) as u8) {
                trail_rating(m, q, end)
            } else {
                0
            },
            None => 0,
        }) + (match m.next(p, Direction::Down) {
            Some(q) => if cell_is(m, q, (v + 1) as u8) {
                trail_rating(m, q, end)
            } else {
                0
            },
            None => 0,
        }) + (match m.next(p, Direction::Left) {
            Some(q) => if cell_is(m, q, (v + 1) as u8) {
                trail_rating(m, q, end)
            } else {
                0
            },
            None => 0,
        })
    }
}

/// The summits one neighbor arm contributes: the trail ends beyond the
/// `d`-neighbor of `p` when that neighbor climbs by exactly one, and
/// nothing otherwise.
pub open spec fn step_ends(m: GridModel<u8>, p: Point, end: u8, d: Direction) -> Set<Point> {
    let v = cell_of(m, p);
    match m.next(p, d) {
        Some(q) => if cell_is(m, q, (v + 1) as u8) {
            trail_ends(m, q, end)
        } else {
            Set::empty()
        },
        None => Set::empty(),
    }
}

/// The ascending-path count one neighbor arm contributes.
pub open spec fn step_rating(m: GridModel<u8>, p: Point, end: u8, d: Direction) -> nat {
    let v = cell_of(m, p);
    match m.next(p, d) {
        Some(q) => if cell_is(m, q, (v + 1) as u8) {
            trail_rating(m, q, end)
        } else {
            0
        },
        None => 0,
    }
}

/// Below the summit height, the reachable-summit set is the union of the
/// four arms, and the path count is the sum of the four arms.
pub proof fn lemma_trail_unfold(m: GridModel<u8>, p: Point, end: u8)
    requires
        m.get(p) is Some,
        cell_of(m, p) <= end,
        cell_of(m, p) != end,
    ensures
        trail_ends(m, p, end) == step_ends(m, p, end, Direction::Up)
            .union(step_ends(m, p, end, Direction::Right))
            .union(step_ends(m, p, end, Direction::Down))
            .union(step_ends(m, p, end, Direction::Left)),
        trail_rating(m, p, end) == step_rating(m, p, end, Direction::Up)
            + step_rating(m, p, end, Direction::Right)
            + step_rating(m, p, end, Direction::Down)
            + step_rating(m, p, end, Direction::Left),
{
}

/// The grid model that parsing a height field yields: the lines of the
/// input, each character read as its digit value.
pub open spec fn spec_parse_model(s: Seq<char>) -> GridModel<u8> {
    let ls = lines_of(s);
    let cols = spec_columns(s);
    GridModel {
        cells: Seq::new((ls.len() * cols) as nat, |k: int| cell_code(ls[k / cols][k % cols])),
        rows: ls.len() as int,
        cols: cols,
    }
}

/// Reads a height grid from newline-separated digit rows. Characters other
/// than digits become dead cells; rows of unequal length are rejected.
pub fn parse(input: &str) -> (res: Result<Grid<u8>, GridError>)
    ensures
        res matches Ok(g) ==> g.wf() && g.model() == spec_parse_model(input@),
        res matches Ok(_) <==> !ragged(lines_of(input@)),
        res matches Err(e) ==> e == GridError::RaggedRows,
{
    let mapper = |c: char| -> (v: u8)
        ensures
            v == cell_code(c),
        {
            let d = c as u32;
            if 48 <= d && d <= 57 {
                (d - 48) as u8
            } else {
                255
            }
        };
    let res = Grid::<u8>::construct(input, mapper);
    match res {
        Ok(g) => {
            proof {
                let ls = lines_of(input@);
                let m = spec_parse_model(input@);
                assert(g.s@.len() == m.cells.len());
                assert forall|k: int| 0 <= k < g.s@.len() implies g.s@[k] == m.cells[k] by {
                    let cols = spec_columns(input@);
                    assert(cols > 0) by {
                        if cols <= 0 {
                            assert(ls.len() * 0 == 0) by (nonlinear_arith);
                        }
                    };
                    let r = k / cols;
                    let c = k % cols;
                    vstd::arithmetic::div_mod::lemma_fundamental_div_mod(k, cols);
                    vstd::arithmetic::div_mod::lemma_mod_bound(k, cols);
                    vstd::arithmetic::div_mod::lemma_div_pos_is_pos(k, cols);
                    assert(r < ls.len()) by {
                        if r >= ls.len() {
                            assert(k >= ls.len() * cols) by (nonlinear_arith)
                                requires
                                    k == cols * r + c,
                                    0 <= c,
                                    r >= ls.len(),
                                    cols > 0,
                            ;
                        }
                    };
                    assert(call_ensures(mapper, (ls[r][c],), g.s@[r * g.columns + c]));
                    assert(r * cols + c == k) by (nonlinear_arith)
                        requires
                            k == cols * r + c,
                    ;
                };
                assert(g.model().cells =~= m.cells);
                assert(g.model() =~= m);
            }
            Ok(g)
        }
        Err(e) => Err(e),
    }
}

/// Follows one neighbor arm of the summit search, pouring the arm's trail
/// ends into `ends`.
fn gather_arm(grid: &Grid<u8>, p: Point, v: u8, end: u8, d: Direction, ends: &mut ahash::AHashSet<Point>)
    requires
        grid.wf(),
        grid.model().get(p) is Some,
        v == cell_of(grid.model(), p),
        v < end,
        point_set_view(old(ends)).finite(),
    ensures
        point_set_view(final(ends)) == point_set_view(old(ends)).union(
            step_ends(grid.model(), p, end, d),
        ),
        point_set_view(final(ends)).finite(),
    decreases end - v, 0int,
{
    let ghost m = grid.model();
    if let Some(q) = grid.next_position(p, d) {
        if let Some(w) = grid.get(q) {
            if w == v + 1 {
                gather_trail_ends(grid, q, end, ends);
                return ;
            }
        }
    }
    proof {
        assert(step_ends(m, p, end, d) =~= Set::<Point>::empty());
        assert(point_set_view(ends) =~= point_set_view(ends).union(Set::empty()));
    }
}

/// Collects into `ends` every summit cell of height `end` reachable from
/// `p` by steps that climb by exactly one.
pub fn gather_trail_ends(grid: &Grid<u8>, p: Point, end: u8, ends: &mut ahash::AHashSet<Point>)
    requires
        grid.wf(),
        grid.model().get(p) is Some,
        cell_of(grid.model(), p) <= end,
        point_set_view(old(ends)).finite(),
    ensures
        point_set_view(final(ends)) == point_set_view(old(ends)).union(
            trail_ends(grid.model(), p, end),
        ),
        point_set_view(final(ends)).finite(),
    decreases end - cell_of(grid.model(), p), 1int,
{
    let ghost m = grid.model();
    let ghost s0 = point_set_view(ends);
    let v = match grid.get(p) {
        Some(x) => x,
        None => {
            proof {
                assert(false);
            }
            255
        }
    };
    if v == end {
        point_set_insert(ends, p);
        proof {
            assert(trail_ends(m, p, end) =~= set![p]);
            assert(s0.insert(p) =~= s0.union(trail_ends(m, p, end)));
        }
        return ;
    }
    gather_arm(grid, p, v, end, Direction::Up, ends);
    let ghost s1 = point_set_view(ends);
    gather_arm(grid, p, v, end, Direction::Right, ends);
    let ghost s2 = point_set_view(ends);
    gather_arm(grid, p, v, end, Direction::Down, ends);
    let ghost s3 = point_set_view(ends);
    gather_arm(grid, p, v, end, Direction::Left, ends);
    proof {
        lemma_trail_unfold(m, p, end);
        assert(point_set_view(ends) =~= s0.union(trail_ends(m, p, end)));
    }
}

/// The number of distinct summit cells of height `end` reachable from
/// `start` by ascending steps.
pub fn trailhead_score(grid: &Grid<u8>, start: Point, end: u8) -> (r: usize)
    requires
        grid.wf(),
        grid.model().get(start) is Some,
        cell_of(grid.model(), start) <= end,
    ensures
        r == trail_ends(grid.model(), start, end).len(),
{
    let mut ends = point_set_new();
    gather_trail_ends(grid, start, end, &mut ends);
    proof {
        assert(Set::<Point>::empty().union(trail_ends(grid.model(), start, end))
            =~= trail_ends(grid.model(), start, end));
    }
    point_set_len(&ends)
}

/// Follows one neighbor arm of the path count.
fn rating_arm(grid: &Grid<u8>, p: Point, v: u8, end: u8, d: Direction) -> (r: Option<usize>)
    requires
        grid.wf(),
        grid.model().get(p) is Some,
        v == cell_of(grid.model(), p),
        v < end,
    ensures
        r matches Some(x) ==> x == step_rating(grid.model(), p, end, d),
        r is None ==> step_rating(grid.model(), p, end, d) > usize::MAX,
    decreases end - v, 0int,
{
    let ghost m = grid.model();
    if let Some(q) = grid.next_position(p, d) {
        if let Some(w) = grid.get(q) {
            if w == v + 1 {
                return trailhead_rating(grid, q, end);
            }
        }
    }
    Some(0)
}

/// The number of distinct ascending paths from `p` to cells of height
/// `end`, or `None` when that count does not fit a `usize`.
pub fn trailhead_rating(grid: &Grid<u8>, p: Point, end: u8) -> (r: Option<usize>)
    requires
        grid.wf(),
        grid.model().get(p) is Some,
        cell_of(grid.model(), p) <= end,
    ensures
        r matches Some(x) ==> x == trail_rating(grid.model(), p, end),
        r is None ==> trail_rating(grid.model(), p, end) > usize::MAX,
    decreases end - cell_of(grid.model(), p), 1int,
{
    let ghost m = grid.model();
    let v = match grid.get(p) {
        Some(x) => x,
        None => {
            proof {
                assert(false);
            }
            255
        }
    };
    if v == end {
        return Some(1);
    }
    proof {
        lemma_trail_unfold(m, p, end);
    }
    let mut total: usize = 0;
    let ra = match rating_arm(grid, p, v, end, Direction::Up) {
        Some(x) => x,
        None => {
            return None;
        }
    };
    if total > usize::MAX - ra {
        return None;
    }
    total = total + ra;
    let rb = match rating_arm(grid, p, v, end, Direction::Right) {
        Some(x) => x,
        None => {
            return None;
        }
    };
    if total > usize::MAX - rb {
        return None;
    }
    total = total + rb;
    let rc = match rating_arm(grid, p, v, end, Direction::Down) {
        Some(x) => x,
        None => {
            return None;
        }
    };
    if total > usize::MAX - rc {
        return None;
    }
    total = total + rc;
    let rd = match rating_arm(grid, p, v, end, Direction::Left) {
        Some(x) => x,
        None => {
            return None;
        }
    };
    if total > usize::MAX - rd {
        return None;
    }
    total = total + rd;
    Some(total)
}

/// How a whole-grid trail query can fail.
#[derive(Debug, Copy, Clone, PartialEq, Eq, Structural)]
pub enum TrailError {
    /// The input rows do not all share one length.
    Ragged,
    /// The count does not fit a `usize`.
    Overflow,
}

/// The summit height every trail climbs to.
pub open spec fn summit() -> u8 {
    9u8
}

/// The total score of the trailheads at `(r, c)` and after it in row-major
/// order: for each cell of height 0, the number of distinct summits it
/// reaches.
pub open spec fn score_sum_from(m: GridModel<u8>, r: int, c: int) -> nat
    decreases m.rows - r, m.cols - c
        when 0 <= r && 0 <= c <= m.cols && m.wf()
{
    if r >= m.rows {
        0
    } else if c >= m.cols {
        score_sum_from(m, r + 1, 0)
    } else {
        (if m.get((r as usize, c as usize)) == Some(0u8) {
            trail_ends(m, (r as usize, c as usize), summit()).len()
        } else {
            0
        }) + score_sum_from(m, r, c + 1)
    }
}

/// The total rating of the trailheads at `(r, c)` and after it in
/// row-major order: for each cell of height 0, the number of distinct
/// ascending paths to a summit.
pub open spec fn rating_sum_from(m: GridModel<u8>, r: int, c: int) -> nat
    decreases m.rows - r, m.cols - c
        when 0 <= r && 0 <= c <= m.cols && m.wf()
{
    if r >= m.rows {
        0
    } else if c >= m.cols {
        rating_sum_from(m, r + 1, 0)
    } else {
        (if m.get((r as usize, c as usize)) == Some(0u8) {
            trail_rating(m, (r as usize, c as usize), summit())
        } else {
            0
        }) + rating_sum_from(m, r, c + 1)
    }
}

/// The total score of every trailhead of the height field: for each cell
/// of height 0, the number of distinct summits of height 9 it reaches by
/// steps that climb by exactly one.
pub fn part1(input: &str) -> (res: Result<usize, TrailError>)
    ensures
        res matches Err(TrailError::Ragged) <==> ragged(lines_of(input@)),
        res matches Ok(v) ==> v == score_sum_from(spec_parse_model(input@), 0, 0),
        res matches Err(TrailError::Overflow)
            ==> score_sum_from(spec_parse_model(input@), 0, 0) > usize::MAX,
{
    let grid = match parse(input) {
        Ok(g) => g,
        Err(_) => {
            return Err(TrailError::Ragged);
        }
    };
    let ghost m = grid.model();
    let mut acc: usize = 0;
    let mut r: usize = 0;
    while r < grid.rows
        invariant
            grid.wf(),
            m == grid.model(),
            m == spec_parse_model(input@),
            !ragged(lines_of(input@)),
            m.wf(),
            0 <= r <= grid.rows,
            acc + score_sum_from(m, r as int, 0) == score_sum_from(m, 0, 0),
        decreases grid.rows - r,
    {
        let mut c: usize = 0;
        while c < grid.columns
            invariant
                grid.wf(),
                m == grid.model(),
                m == spec_parse_model(input@),
                !ragged(lines_of(input@)),
                m.wf(),
                0 <= r < grid.rows,
                0 <= c <= grid.columns,
                acc + score_sum_from(m, r as int, c as int) == score_sum_from(m, 0, 0),
            decreases grid.columns - c,
        {
            let val = match grid.get((r, c)) {
                Some(x) => x,
                None => {
                    proof {
                        assert(false);
                    }
                    255
                }
            };
            if val == 0 {
                let score = trailhead_score(&grid, (r, c), 9);
                if acc > usize::MAX - score {
                    proof {
                        assert(score_sum_from(m, 0, 0) >= acc + score);
                    }
                    return Err(TrailError::Overflow);
                }
                acc = acc + score;
            }
            c = c + 1;
        }
        r = r + 1;
    }
    Ok(acc)
}

/// The total rating of every trailhead of the height field: for each cell
/// of height 0, the number of distinct ascending paths to a summit.
pub fn part2(input: &str) -> (res: Result<usize, TrailError>)
    ensures
        res matches Err(TrailError::Ragged) <==> ragged(lines_of(input@)),
        res matches Ok(v) ==> v == rating_sum_from(spec_parse_model(input@), 0, 0),
        res matches Err(TrailError::Overflow)
            ==> rating_sum_from(spec_parse_model(input@), 0, 0) > usize::MAX,
{
    let grid = match parse(input) {
        Ok(g) => g,
        Err(_) => {
            return Err(TrailError::Ragged);
        }
    };
    let ghost m = grid.model();
    let mut acc: usize = 0;
    let mut r: usize = 0;
    while r < grid.rows
        invariant
            grid.wf(),
            m == grid.model(),
            m == spec_parse_model(input@),
            !ragged(lines_of(input@)),
            m.wf(),
            0 <= r <= grid.rows,
            acc + rating_sum_from(m, r as int, 0) == rating_sum_from(m, 0, 0),
        decreases grid.rows - r,
    {
        let mut c: usize = 0;
        while c < grid.columns
            invariant
                grid.wf(),
                m == grid.model(),
                m == spec_parse_model(input@),
                !ragged(lines_of(input@)),
                m.wf(),
                0 <= r < grid.rows,
                0 <= c <= grid.columns,
                acc + rating_sum_from(m, r as int, c as int) == rating_sum_from(m, 0, 0),
            decreases grid.columns - c,
        {
            let val = match grid.get((r, c)) {
                Some(x) => x,
                None => {
                    proof {
                        assert(false);
                    }
                    255
                }
            };
            if val == 0 {
                let rating = match trailhead_rating(&grid, (r, c), 9) {
                    Some(x) => x,
                    None => {
                        proof {
                            assert(rating_sum_from(m, 0, 0) >= rating_sum_from(m, r as int, c as int));
                        }
                        return Err(TrailError::Overflow);
                    }
                };
                if acc > usize::MAX - rating {
                    proof {
                        assert(rating_sum_from(m, 0, 0) >= acc + rating);
                    }
                    return Err(TrailError::Overflow);
                }
                acc = acc + rating;
            }
            c = c + 1;
        }
        r = r + 1;
    }
    Ok(acc)
}

/// Re-running a search on an unmodified grid changes nothing: any two
/// results that `part1`'s contract admits for the same input are equal,
/// and likewise for `part2`.
pub proof fn lemma_search_rerun_invariant(
    input: Seq<char>,
    r1: Result<usize, TrailError>,
    r2: Result<usize, TrailError>,
)
    requires
        (r1 matches Err(TrailError::Ragged)) <==> ragged(lines_of(input)),
        r1 matches Ok(v) ==> v == score_sum_from(spec_parse_model(input), 0, 0),
        (r1 matches Err(TrailError::Overflow))
            ==> score_sum_from(spec_parse_model(input), 0, 0) > usize::MAX,
        (r2 matches Err(TrailError::Ragged)) <==> ragged(lines_of(input)),
        r2 matches Ok(v) ==> v == score_sum_from(spec_parse_model(input), 0, 0),
        (r2 matches Err(TrailError::Overflow))
            ==> score_sum_from(spec_parse_model(input), 0, 0) > usize::MAX,
    ensures
        r1 == r2,
{
}

} // verus!
