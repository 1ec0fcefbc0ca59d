//! Connected-region extraction with shape metrics: a flood fill partitions
//! the grid into maximal same-valued 4-connected components, and each
//! component is measured by its cell count together with either its raw
//! boundary-edge count or its corner count (the number of straight sides
//! its outline has).

use vstd::prelude::*;

use crate::grid::lines_of;
use crate::grid::ragged;
use crate::grid::spec_columns;
use crate::grid::Direction;
use crate::grid::Grid;
use crate::grid::GridError;
use crate::grid::GridModel;
use crate::grid::Point;
use crate::pointset::point_set_contains;
use crate::pointset::point_set_insert;
use crate::pointset::point_set_new;
use crate::pointset::point_set_view;

verus! {

broadcast use vstd::seq_lib::group_seq_properties, Seq::<Point>::lemma_push_to_set_commute;

/// Whether two points are 4-connected neighbors of each other.
pub open spec fn touching(p: Point, q: Point) -> bool {
    ||| (p.0 == q.0 && (p.1 + 1 == q.1 || q.1 + 1 == p.1))
    ||| (p.1 == q.1 && (p.0 + 1 == q.0 || q.0 + 1 == p.0))
}

/// Whether the in-range cell at `p` holds `colour`.
pub open spec fn filled(m: GridModel<char>, colour: char, p: Point) -> bool {
    m.get(p) == Some(colour)
}

/// Whether the cell at integer coordinates `(r, c)` is in range and holds
/// `colour`.
pub open spec fn filled_at(m: GridModel<char>, colour: char, r: int, c: int) -> bool {
    m.in_bounds(r, c) && m.cells[r * m.cols + c] == colour
}

/// A walk through same-coloured cells: every entry holds `colour` and
/// consecutive entries are 4-connected.
pub open spec fn is_path(m: GridModel<char>, colour: char, path: Seq<Point>) -> bool {
    &&& path.len() >= 1
    &&& forall|i: int| 0 <= i < path.len() ==> filled(m, colour, #[trigger] path[i])
    &&& forall|i: int| 0 <= i < path.len() - 1 ==> touching(#[trigger] path[i], path[i + 1])
}

/// Whether `b` can be reached from `a` through same-coloured 4-connected
/// cells.
pub open spec fn connected(m: GridModel<char>, colour: char, a: Point, b: Point) -> bool {
    exists|path: Seq<Point>|
        #[trigger] is_path(m, colour, path) && path.first() == a && path.last() == b
}

/// The maximal same-coloured component around `start`.
pub open spec fn component(m: GridModel<char>, colour: char, start: Point) -> Set<Point> {
    Set::new(|q: Point| connected(m, colour, start, q))
}

/// Whether `s` is closed under single same-coloured steps: no cell outside
/// `s` touches a cell of `s` sharing its value.
pub open spec fn step_closed(m: GridModel<char>, s: Set<Point>) -> bool {
    forall|p: Point, q: Point|
        s.contains(p) && #[trigger] touching(p, q) && m.get(p) is Some && m.get(q) == m.get(p)
            ==> s.contains(q)
}

/// A filled cell is connected to itself.
pub proof fn lemma_connected_refl(m: GridModel<char>, colour: char, p: Point)
    requires
        filled(m, colour, p),
    ensures
        connected(m, colour, p, p),
{
    let path = seq![p];
    assert(is_path(m, colour, path));
    assert(path.first() == p && path.last() == p);
}

/// A connection extends by one same-coloured step.
pub proof fn lemma_connected_extend(m: GridModel<char>, colour: char, a: Point, b: Point, q: Point)
    requires
        connected(m, colour, a, b),
        touching(b, q),
        filled(m, colour, q),
    ensures
        connected(m, colour, a, q),
{
    let path = choose|path: Seq<Point>|
        #[trigger] is_path(m, colour, path) && path.first() == a && path.last() == b;
    let longer = path.push(q);
    assert(forall|i: int| 0 <= i < path.len() ==> longer[i] == path[i]);
    assert(is_path(m, colour, longer));
    assert(longer.first() == a && longer.last() == q);
}

/// Walking a same-coloured path out of a step-closed set is impossible:
/// the whole path stays inside.
pub proof fn lemma_path_stays_in_closed(
    m: GridModel<char>,
    colour: char,
    s: Set<Point>,
    path: Seq<Point>,
)
    requires
        is_path(m, colour, path),
        step_closed(m, s),
        s.contains(path.first()),
    ensures
        s.contains(path.last()),
        forall|i: int| 0 <= i < path.len() ==> s.contains(#[trigger] path[i]),
    decreases path.len(),
{
    if path.len() > 1 {
        let prefix = path.drop_last();
        assert(forall|i: int| 0 <= i < prefix.len() ==> prefix[i] == path[i]);
        assert(is_path(m, colour, prefix));
        lemma_path_stays_in_closed(m, colour, s, prefix);
        assert(touching(path[path.len() - 2], path[path.len() - 1]));
        assert(s.contains(path[path.len() - 2]));
        assert(s.contains(path.last()));
    }
}

/// Walking a same-coloured path backward out of a step-closed set is
/// impossible either: if the end lies inside, so does the start.
pub proof fn lemma_path_backward_in_closed(
    m: GridModel<char>,
    colour: char,
    s: Set<Point>,
    path: Seq<Point>,
)
    requires
        is_path(m, colour, path),
        step_closed(m, s),
        s.contains(path.last()),
    ensures
        s.contains(path.first()),
    decreases path.len(),
{
    if path.len() > 1 {
        let tail = path.skip(1);
        assert(forall|i: int| 0 <= i < tail.len() ==> tail[i] == path[i + 1]);
        assert(is_path(m, colour, tail));
        assert(tail.last() == path.last());
        lemma_path_backward_in_closed(m, colour, s, tail);
        assert(s.contains(path[1]));
        assert(touching(path[0], path[1]));
        assert(touching(path[1], path[0]));
    }
}

/// A step-closed set that holds `start` swallows the whole component.
pub proof fn lemma_component_in_closed(
    m: GridModel<char>,
    colour: char,
    start: Point,
    s: Set<Point>,
)
    requires
        step_closed(m, s),
        s.contains(start),
    ensures
        forall|q: Point| component(m, colour, start).contains(q) ==> s.contains(q),
{
    assert forall|q: Point| component(m, colour, start).contains(q) implies s.contains(q) by {
        let path = choose|path: Seq<Point>|
            #[trigger] is_path(m, colour, path) && path.first() == start && path.last() == q;
        lemma_path_stays_in_closed(m, colour, s, path);
    };
}

/// A step-closed set that misses `start` misses the whole component.
pub proof fn lemma_component_misses_closed(
    m: GridModel<char>,
    colour: char,
    start: Point,
    s: Set<Point>,
)
    requires
        step_closed(m, s),
        !s.contains(start),
    ensures
        forall|q: Point| component(m, colour, start).contains(q) ==> !s.contains(q),
{
    assert forall|q: Point| component(m, colour, start).contains(q) implies !s.contains(q) by {
        if s.contains(q) {
            let path = choose|path: Seq<Point>|
                #[trigger] is_path(m, colour, path) && path.first() == start && path.last() == q;
            lemma_path_backward_in_closed(m, colour, s, path);
        }
    };
}

/// The grid model a character field realizes: the lines of the input, each
/// character kept as it stands.
pub open spec fn spec_text_model(s: Seq<char>) -> GridModel<char> {
    let ls = lines_of(s);
    let cols = spec_columns(s);
    GridModel {
        cells: Seq::new((ls.len() * cols) as nat, |k: int| ls[k / cols][k % cols]),
        rows: ls.len() as int,
        cols: cols,
    }
}

/// Reads a character grid from newline-separated rows; rows of unequal
/// length are rejected.
pub fn parse(input: &str) -> (res: Result<Grid<char>, GridError>)
    ensures
        res matches Ok(g) ==> g.wf() && g.model() == spec_text_model(input@),
        res matches Ok(_) <==> !ragged(lines_of(input@)),
        res matches Err(e) ==> e == GridError::RaggedRows,
{
    let mapper = |c: char| -> (v: char)
        ensures
            v == c,
        {
            c
        };
    let res = Grid::<char>::construct(input, mapper);
    match res {
        Ok(g) => {
            proof {
                let ls = lines_of(input@);
                let m = spec_text_model(input@);
                assert(g.s@.len() == m.cells.len());
                assert forall|k: int| 0 <= k < g.s@.len() implies g.s@[k] == m.cells[k] by {
                    let cols = spec_columns(input@);
                    assert(cols > 0) by {
                        if cols <= 0 {
                            assert(ls.len() * 0 == 0) by (nonlinear_arith);
                        }
                    };
                    let r = k / cols;
                    let c = k % cols;
                    vstd::arithmetic::div_mod::lemma_fundamental_div_mod(k, cols);
                    vstd::arithmetic::div_mod::lemma_mod_bound(k, cols);
                    vstd::arithmetic::div_mod::lemma_div_pos_is_pos(k, cols);
                    assert(r < ls.len()) by {
                        if r >= ls.len() {
                            assert(k >= ls.len() * cols) by (nonlinear_arith)
                                requires
                                    k == cols * r + c,
                                    0 <= c,
                                    r >= ls.len(),
                                    cols > 0,
                            ;
                        }
                    };
                    assert(call_ensures(mapper, (ls[r][c],), g.s@[r * g.columns + c]));
                    assert(r * cols + c == k) by (nonlinear_arith)
                        requires
                            k == cols * r + c,
                    ;
                };
                assert(g.model().cells =~= m.cells);
                assert(g.model() =~= m);
            }
            Ok(g)
        }
        Err(e) => Err(e),
    }
}

/// Flood-fills the maximal same-coloured component around `start`,
/// recording each of its cells in `seen` and returning them in discovery
/// order: exactly the cells 4-connected to `start` through the value
/// `colour`.
#[verifier::rlimit(50)]
pub fn flood_region(
    grid: &Grid<char>,
    start: Point,
    colour: char,
    seen: &mut ahash::AHashSet<Point>,
) -> (region: Vec<Point>)
    requires
        grid.wf(),
        grid.model().get(start) == Some(colour),
        forall|q: Point|
            component(grid.model(), colour, start).contains(q) ==> !point_set_view(
                old(seen),
            ).contains(q),
        point_set_view(old(seen)).finite(),
    ensures
        region@.to_set() == component(grid.model(), colour, start),
        region@.no_duplicates(),
        region@.len() >= 1,
        forall|k: int| 0 <= k < region@.len()
            ==> grid.model().get(#[trigger] region@[k]) == Some(colour),
        point_set_view(final(seen)) == point_set_view(old(seen)).union(
            component(grid.model(), colour, start),
        ),
        point_set_view(final(seen)).finite(),
{
    let ghost m = grid.model();
    let ghost s0 = point_set_view(seen);
    let mut queue: Vec<Point> = Vec::new();
    queue.push(start);
    point_set_insert(seen, start);
    proof {
        lemma_connected_refl(m, colour, start);
        assert(queue@ == Seq::<Point>::empty().push(start));
        assert(queue@.to_set() =~= Set::<Point>::empty().insert(start));
        assert(point_set_view(seen) =~= s0.union(queue@.to_set()));
        assert(queue@.no_duplicates());
        lemma_distinct_points_bound_grid(queue@, m);
    }
    let mut qi: usize = 0;
    while qi < queue.len()
        invariant
            grid.wf(),
            m == grid.model(),
            m.get(start) == Some(colour),
            0 <= qi <= queue@.len(),
            queue@.len() >= 1,
            queue@[0] == start,
            queue@.no_duplicates(),
            queue@.len() <= m.rows * m.cols,
            forall|k: int| 0 <= k < queue@.len()
                ==> m.get(#[trigger] queue@[k]) == Some(colour) && connected(
                    m,
                    colour,
                    start,
                    queue@[k],
                ),
            point_set_view(seen) == s0.union(queue@.to_set()),
            point_set_view(seen).finite(),
            forall|q: Point| component(m, colour, start).contains(q) ==> !s0.contains(q),
            forall|k: int, q: Point|
                0 <= k < qi && #[trigger] touching(queue@[k], q) && m.get(q) == Some(colour)
                    ==> queue@.to_set().contains(q),
        decreases m.rows * m.cols - qi,
    {
        let p = queue[qi];
        let directions = [Direction::Up, Direction::Right, Direction::Down, Direction::Left];
        let mut di: usize = 0;
        while di < 4
            invariant
                grid.wf(),
                m == grid.model(),
                m.get(start) == Some(colour),
                0 <= qi < queue@.len(),
                p == queue@[qi as int],
                0 <= di <= 4,
                directions@ =~= crate::grid::spec_direction_order(),
                queue@.len() >= 1,
                queue@[0] == start,
                queue@.no_duplicates(),
                queue@.len() <= m.rows * m.cols,
                forall|k: int| 0 <= k < queue@.len()
                    ==> m.get(#[trigger] queue@[k]) == Some(colour) && connected(
                        m,
                        colour,
                        start,
                        queue@[k],
                    ),
                point_set_view(seen) == s0.union(queue@.to_set()),
                point_set_view(seen).finite(),
                forall|q: Point| component(m, colour, start).contains(q) ==> !s0.contains(q),
                forall|k: int, q: Point|
                    0 <= k < qi && #[trigger] touching(queue@[k], q) && m.get(q) == Some(colour)
                        ==> queue@.to_set().contains(q),
                forall|e: int|
                    0 <= e < di ==> (match m.next(p, #[trigger] crate::grid::spec_direction_order()[e]) {
                        Some(q) => m.get(q) == Some(colour) ==> queue@.to_set().contains(q),
                        None => true,
                    }),
            decreases 4 - di,
        {
            let d = directions[di];
            if let Some(q) = grid.next_position(p, d) {
                if let Some(w) = grid.get(q) {
                    if w == colour {
                        proof {
                            assert(touching(p, q));
                            lemma_connected_extend(m, colour, start, p, q);
                        }
                        if !point_set_contains(seen, q) {
                            proof {
                                assert(!queue@.to_set().contains(q));
                                assert(!queue@.contains(q));
                            }
                            let ghost oldq = queue@;
                            point_set_insert(seen, q);
                            queue.push(q);
                            proof {
                                assert(queue@.to_set() == oldq.to_set().insert(q));
                                assert(point_set_view(seen) =~= s0.union(queue@.to_set()));
                                assert(queue@.no_duplicates()) by {
                                    assert forall|i: int, j: int|
                                        0 <= i < queue@.len() && 0 <= j < queue@.len() && i != j
                                            implies queue@[i] != queue@[j] by {
                                        if i < oldq.len() && j < oldq.len() {
                                        } else if i < oldq.len() {
                                            assert(queue@[j] == q && queue@[i] == oldq[i]);
                                        } else {
                                            assert(queue@[i] == q && queue@[j] == oldq[j]);
                                        }
                                    };
                                };
                                lemma_distinct_points_bound_grid(queue@, m);
                            }
                        } else {
                            proof {
                                assert(s0.union(queue@.to_set()).contains(q));
                                assert(component(m, colour, start).contains(q));
                                assert(queue@.to_set().contains(q));
                            }
                        }
                    }
                }
            }
            di = di + 1;
        }
        proof {
            assert forall|q: Point|
                touching(p, q) && m.get(q) == Some(colour) implies queue@.to_set().contains(
                q,
            ) by {
                let ord = crate::grid::spec_direction_order();
                if q.0 == p.0 && p.1 + 1 == q.1 {
                    assert(m.next(p, ord[1]) == Some(q));
                } else if q.0 == p.0 && q.1 + 1 == p.1 {
                    assert(m.next(p, ord[3]) == Some(q));
                } else if q.1 == p.1 && p.0 + 1 == q.0 {
                    assert(m.next(p, ord[2]) == Some(q));
                } else {
                    assert(q.1 == p.1 && q.0 + 1 == p.0);
                    assert(m.next(p, ord[0]) == Some(q));
                }
            };
        }
        qi = qi + 1;
    }
    proof {
        let region_set = queue@.to_set();
        assert(step_closed(m, region_set)) by {
            assert forall|a: Point, b: Point|
                region_set.contains(a) && #[trigger] touching(a, b) && m.get(a) is Some && m.get(
                    b,
                ) == m.get(a) implies region_set.contains(b) by {
                let k = choose|k: int| 0 <= k < queue@.len() && queue@[k] == a;
                assert(m.get(a) == Some(colour));
            };
        };
        lemma_component_in_closed(m, colour, start, region_set);
        assert forall|q: Point| region_set.contains(q) implies component(m, colour, start).contains(
            q,
        ) by {
            let k = choose|k: int| 0 <= k < queue@.len() && queue@[k] == q;
        };
        assert(region_set =~= component(m, colour, start));
        assert(point_set_view(seen) =~= s0.union(component(m, colour, start)));
    }
    queue
}

/// Which perimeter metric a region query uses.
#[derive(Debug, Copy, Clone, PartialEq, Eq, Structural)]
pub enum PerimeterRule {
    /// Every boundary edge between a region cell and a differing or missing
    /// neighbor counts once.
    Edges,
    /// Only the corners of the region's outline count, which equals the
    /// number of straight sides the outline has.
    Corners,
}

/// How a whole-grid region query can fail.
#[derive(Debug, Copy, Clone, PartialEq, Eq, Structural)]
pub enum RegionError {
    /// The input rows do not all share one length.
    Ragged,
    /// A count does not fit a `usize`.
    Overflow,
}

/// The boundary edges the cell at `p` contributes: one for each of its four
/// sides whose neighbor is missing or differently coloured.
pub open spec fn edge_contrib(m: GridModel<char>, colour: char, p: Point) -> nat {
    (if filled_at(m, colour, p.0 - 1, p.1 as int) {
        0nat
    } else {
        1nat
    }) + (if filled_at(m, colour, p.0 as int, p.1 + 1) {
        0nat
    } else {
        1nat
    }) + (if filled_at(m, colour, p.0 + 1, p.1 as int) {
        0nat
    } else {
        1nat
    }) + (if filled_at(m, colour, p.0 as int, p.1 - 1) {
        0nat
    } else {
        1nat
    })
}

/// Whether two directions move along different axes.
pub open spec fn orthogonal(d1: Direction, d2: Direction) -> bool {
    crate::grid::row_step(d1) * crate::grid::row_step(d2) == 0
        && crate::grid::col_step(d1) * crate::grid::col_step(d2) == 0
}

/// The corners the cell at `p` touches at the vertex between directions
/// `d1` and `d2`: a convex corner when both sides leave the region, a
/// concave corner when both sides stay in it but the diagonal does not.
pub open spec fn corner_vertex(
    m: GridModel<char>,
    colour: char,
    p: Point,
    d1: Direction,
    d2: Direction,
) -> nat {
    let s1 = filled_at(
        m,
        colour,
        p.0 + crate::grid::row_step(d1),
        p.1 + crate::grid::col_step(d1),
    );
    let s2 = filled_at(
        m,
        colour,
        p.0 + crate::grid::row_step(d2),
        p.1 + crate::grid::col_step(d2),
    );
    let diag = filled_at(
        m,
        colour,
        p.0 + crate::grid::row_step(d1) + crate::grid::row_step(d2),
        p.1 + crate::grid::col_step(d1) + crate::grid::col_step(d2),
    );
    if !s1 && !s2 {
        1nat
    } else if s1 && s2 && !diag {
        1nat
    } else {
        0nat
    }
}

/// The corners the cell at `p` contributes over its four vertices.
pub open spec fn corner_contrib(m: GridModel<char>, colour: char, p: Point) -> nat {
    corner_vertex(m, colour, p, Direction::Up, Direction::Right) + corner_vertex(
        m,
        colour,
        p,
        Direction::Right,
        Direction::Down,
    ) + corner_vertex(m, colour, p, Direction::Down, Direction::Left) + corner_vertex(
        m,
        colour,
        p,
        Direction::Left,
        Direction::Up,
    )
}

/// The per-cell perimeter contribution the chosen rule assigns.
pub open spec fn rule_contrib(
    m: GridModel<char>,
    colour: char,
    rule: PerimeterRule,
    p: Point,
) -> nat {
    match rule {
        PerimeterRule::Edges => edge_contrib(m, colour, p),
        PerimeterRule::Corners => corner_contrib(m, colour, p),
    }
}

/// The sum of `f` over the finite set `s`.
pub open spec fn contrib_sum(s: Set<Point>, f: spec_fn(Point) -> nat) -> nat {
    s.fold(0nat, |acc: nat, p: Point| acc + f(p))
}

/// The perimeter the chosen rule assigns to the region `s`.
pub open spec fn perimeter_of(
    m: GridModel<char>,
    colour: char,
    s: Set<Point>,
    rule: PerimeterRule,
) -> nat {
    contrib_sum(s, |p: Point| rule_contrib(m, colour, rule, p))
}

/// Adding a fresh point to a region adds exactly its own contribution to
/// the sum.
pub proof fn lemma_contrib_sum_insert(s: Set<Point>, f: spec_fn(Point) -> nat, p: Point)
    requires
        s.finite(),
        !s.contains(p),
    ensures
        contrib_sum(s.insert(p), f) == contrib_sum(s, f) + f(p),
{
    let g = |acc: nat, q: Point| acc + f(q);
    assert(vstd::set::fold::is_fun_commutative(g));
    vstd::set::fold::lemma_fold_insert(s, 0nat, g, p);
}

/// The sum over a disjoint union splits into the two sums.
pub proof fn lemma_contrib_sum_union(a: Set<Point>, b: Set<Point>, f: spec_fn(Point) -> nat)
    requires
        a.finite(),
        b.finite(),
        a.disjoint(b),
    ensures
        contrib_sum(a.union(b), f) == contrib_sum(a, f) + contrib_sum(b, f),
    decreases b.len(),
{
    let g = |acc: nat, q: Point| acc + f(q);
    assert(vstd::set::fold::is_fun_commutative(g));
    if b.len() == 0 {
        assert(b =~= Set::<Point>::empty());
        assert(a.union(b) =~= a);
        vstd::set::fold::lemma_fold_empty(0nat, g);
    } else {
        let x = b.choose();
        assert(b.contains(x));
        let b1 = b.remove(x);
        lemma_contrib_sum_union(a, b1, f);
        lemma_contrib_sum_insert(b1, f, x);
        lemma_contrib_sum_insert(a.union(b1), f, x);
        assert(a.union(b) =~= a.union(b1).insert(x));
        assert(b =~= b1.insert(x));
    }
}

/// The cells of one row segment: row `r`, columns `c0` to `c0 + w`.
pub open spec fn row_cells(r: int, c0: int, w: int) -> Set<Point> {
    Set::new(|p: Point| (p.0 as int) == r && c0 <= (p.1 as int) && (p.1 as int) < c0 + w)
}

/// The cells of a rectangle of height `h` and width `w` whose top-left
/// cell is `(r0, c0)`.
pub open spec fn rect_cells(r0: int, c0: int, h: int, w: int) -> Set<Point> {
    Set::new(
        |p: Point|
            r0 <= (p.0 as int) && (p.0 as int) < r0 + h && c0 <= (p.1 as int) && (p.1 as int) < c0
                + w,
    )
}

/// How many of the rectangle's top and bottom rows the row `r` is.
pub open spec fn top_bottom_count(r0: int, h: int, r: int) -> nat {
    (if r == r0 {
        1nat
    } else {
        0nat
    }) + (if r == r0 + h - 1 {
        1nat
    } else {
        0nat
    })
}

/// How many of the rectangle's left and right columns the column `c` is.
pub open spec fn left_right_count(c0: int, w: int, c: int) -> nat {
    (if c == c0 {
        1nat
    } else {
        0nat
    }) + (if c == c0 + w - 1 {
        1nat
    } else {
        0nat
    })
}

/// Inside an exactly-rectangular colour pattern, each cell contributes its
/// side memberships to the edge metric and their product to the corner
/// metric.
proof fn lemma_rect_cell_contrib(
    m: GridModel<char>,
    colour: char,
    r0: int,
    c0: int,
    h: int,
    w: int,
    p: Point,
)
    requires
        1 <= h,
        1 <= w,
        forall|r: int, c: int|
            #[trigger] filled_at(m, colour, r, c) <==> (r0 <= r < r0 + h && c0 <= c < c0 + w),
        r0 <= (p.0 as int) && (p.0 as int) < r0 + h,
        c0 <= (p.1 as int) && (p.1 as int) < c0 + w,
    ensures
        edge_contrib(m, colour, p) == top_bottom_count(r0, h, p.0 as int) + left_right_count(
            c0,
            w,
            p.1 as int,
        ),
        corner_contrib(m, colour, p) == top_bottom_count(r0, h, p.0 as int) * left_right_count(
            c0,
            w,
            p.1 as int,
        ),
{
    assert(filled_at(m, colour, p.0 - 1, p.1 as int) <==> p.0 as int != r0);
    assert(filled_at(m, colour, p.0 + 1, p.1 as int) <==> p.0 as int != r0 + h - 1);
    assert(filled_at(m, colour, p.0 as int, p.1 - 1) <==> p.1 as int != c0);
    assert(filled_at(m, colour, p.0 as int, p.1 + 1) <==> p.1 as int != c0 + w - 1);
}

/// Summing the rectangle's per-cell contributions across one row segment.
proof fn lemma_rect_row_sum(
    m: GridModel<char>,
    colour: char,
    rule: PerimeterRule,
    r0: int,
    c0: int,
    h: int,
    w: int,
    r: int,
    k: int,
)
    requires
        1 <= h,
        1 <= w,
        0 <= r0,
        0 <= c0,
        r0 + h <= usize::MAX,
        c0 + w <= usize::MAX,
        forall|rr: int, cc: int|
            #[trigger] filled_at(m, colour, rr, cc) <==> (r0 <= rr < r0 + h && c0 <= cc < c0 + w),
        r0 <= r < r0 + h,
        0 <= k <= w,
    ensures
        row_cells(r, c0, k).finite(),
        contrib_sum(row_cells(r, c0, k), |p: Point| rule_contrib(m, colour, rule, p)) == (
        match rule {
            PerimeterRule::Edges => k * top_bottom_count(r0, h, r) + (if k >= 1 {
                1nat
            } else {
                0nat
            }) + (if k == w {
                1nat
            } else {
                0nat
            }),
            PerimeterRule::Corners => (top_bottom_count(r0, h, r) * ((if k >= 1 {
                1nat
            } else {
                0nat
            }) + (if k == w {
                1nat
            } else {
                0nat
            }))) as int,
        }),
    decreases k,
{
    let f = |p: Point| rule_contrib(m, colour, rule, p);
    if k == 0 {
        assert(row_cells(r, c0, 0) =~= Set::<Point>::empty());
        vstd::set::fold::lemma_fold_empty(0nat, |acc: nat, q: Point| acc + f(q));
        assert(vstd::set::fold::is_fun_commutative(|acc: nat, q: Point| acc + f(q)));
        assert(contrib_sum(row_cells(r, c0, k), f) == 0);
        assert(0 * top_bottom_count(r0, h, r) == 0) by (nonlinear_arith);
        assert(top_bottom_count(r0, h, r) * 0nat == 0) by (nonlinear_arith);
    } else {
        lemma_rect_row_sum(m, colour, rule, r0, c0, h, w, r, k - 1);
        let p: Point = ((r as usize), ((c0 + k - 1) as usize));
        assert(p.0 as int == r && p.1 as int == c0 + k - 1);
        assert(row_cells(r, c0, k) =~= row_cells(r, c0, k - 1).insert(p));
        assert(!row_cells(r, c0, k - 1).contains(p));
        lemma_contrib_sum_insert(row_cells(r, c0, k - 1), f, p);
        lemma_rect_cell_contrib(m, colour, r0, c0, h, w, p);
        let tb = top_bottom_count(r0, h, r);
        let lr = left_right_count(c0, w, c0 + k - 1);
        assert(f(p) == (match rule {
            PerimeterRule::Edges => (tb + lr) as int,
            PerimeterRule::Corners => (tb * lr) as int,
        }));
        let lk1: nat = (if k - 1 >= 1 {
            1nat
        } else {
            0nat
        }) + (if k - 1 == w {
            1nat
        } else {
            0nat
        });
        let lk: nat = (if k >= 1 {
            1nat
        } else {
            0nat
        }) + (if k == w {
            1nat
        } else {
            0nat
        });
        assert(lk1 + lr == lk);
        if rule == PerimeterRule::Edges {
            assert((k - 1) * tb + tb == k * tb) by (nonlinear_arith);
        } else {
            assert(tb * lk1 + tb * lr == tb * (lk1 + lr)) by (nonlinear_arith);
        }
    }
}

/// Summing the rectangle's per-cell contributions across its first `k`
/// rows.
proof fn lemma_rect_sum(
    m: GridModel<char>,
    colour: char,
    rule: PerimeterRule,
    r0: int,
    c0: int,
    h: int,
    w: int,
    k: int,
)
    requires
        1 <= h,
        1 <= w,
        0 <= r0,
        0 <= c0,
        r0 + h <= usize::MAX,
        c0 + w <= usize::MAX,
        forall|rr: int, cc: int|
            #[trigger] filled_at(m, colour, rr, cc) <==> (r0 <= rr < r0 + h && c0 <= cc < c0 + w),
        0 <= k <= h,
    ensures
        rect_cells(r0, c0, k, w).finite(),
        rule == PerimeterRule::Edges ==> contrib_sum(
            rect_cells(r0, c0, k, w),
            |p: Point| rule_contrib(m, colour, rule, p),
        ) == w * ((if k >= 1 {
            1nat
        } else {
            0nat
        }) + (if k == h {
            1nat
        } else {
            0nat
        })) + 2 * k,
        rule == PerimeterRule::Corners ==> contrib_sum(
            rect_cells(r0, c0, k, w),
            |p: Point| rule_contrib(m, colour, rule, p),
        ) == 2 * ((if k >= 1 {
            1nat
        } else {
            0nat
        }) + (if k == h {
            1nat
        } else {
            0nat
        })),
    decreases k,
{
    let f = |p: Point| rule_contrib(m, colour, rule, p);
    assert(f =~= (|p: Point| rule_contrib(m, colour, rule, p)));
    if k == 0 {
        assert(rect_cells(r0, c0, 0, w) =~= Set::<Point>::empty());
        vstd::set::fold::lemma_fold_empty(0nat, |acc: nat, q: Point| acc + f(q));
        assert(vstd::set::fold::is_fun_commutative(|acc: nat, q: Point| acc + f(q)));
        assert(contrib_sum(rect_cells(r0, c0, k, w), f) == 0);
        assert(rect_cells(r0, c0, k, w).finite());
        assert((if k >= 1 {
            1nat
        } else {
            0nat
        }) == 0);
        assert((if k == h {
            1nat
        } else {
            0nat
        }) == 0);
        assert(w * ((if k >= 1 {
            1nat
        } else {
            0nat
        }) + (if k == h {
            1nat
        } else {
            0nat
        })) == w * 0);
        assert(w * 0 == 0) by (nonlinear_arith);
    } else {
        lemma_rect_sum(m, colour, rule, r0, c0, h, w, k - 1);
        let r = r0 + k - 1;
        lemma_rect_row_sum(m, colour, rule, r0, c0, h, w, r, w);
        assert(rect_cells(r0, c0, k, w) =~= rect_cells(r0, c0, k - 1, w).union(
            row_cells(r, c0, w),
        ));
        assert(rect_cells(r0, c0, k - 1, w).disjoint(row_cells(r, c0, w)));
        lemma_contrib_sum_union(rect_cells(r0, c0, k - 1, w), row_cells(r, c0, w), f);
        let tb = top_bottom_count(r0, h, r);
        let tk1: nat = (if k - 1 >= 1 {
            1nat
        } else {
            0nat
        }) + (if k - 1 == h {
            1nat
        } else {
            0nat
        });
        let tk: nat = (if k >= 1 {
            1nat
        } else {
            0nat
        }) + (if k == h {
            1nat
        } else {
            0nat
        });
        assert(tk1 + tb == tk);
        let lw: nat = (if w >= 1 {
            1nat
        } else {
            0nat
        }) + (if w == w {
            1nat
        } else {
            0nat
        });
        assert(lw == 2);
        if rule == PerimeterRule::Edges {
            assert(contrib_sum(rect_cells(r0, c0, k - 1, w), f) == w * tk1 + 2 * (k - 1));
            assert(contrib_sum(row_cells(r, c0, w), f) == w * tb + lw);
            assert(w * tk1 + (w * tb + lw) == w * (tk1 + tb) + lw) by (nonlinear_arith);
            assert(2 * (k - 1) + 2 == 2 * k);
            assert(contrib_sum(rect_cells(r0, c0, k, w), f) == w * ((if k >= 1 {
                1nat
            } else {
                0nat
            }) + (if k == h {
                1nat
            } else {
                0nat
            })) + 2 * k);
        } else {
            assert(contrib_sum(rect_cells(r0, c0, k - 1, w), f) == 2 * tk1);
            assert(contrib_sum(row_cells(r, c0, w), f) == tb * lw);
            assert(2 * tk1 + tb * lw == 2 * (tk1 + tb)) by (nonlinear_arith)
                requires
                    lw == 2nat,
            ;
            assert(contrib_sum(rect_cells(r0, c0, k, w), f) == 2 * tk);
        }
        assert(rect_cells(r0, c0, k, w).finite()) by {
            assert(rect_cells(r0, c0, k - 1, w).union(row_cells(r, c0, w)).finite());
        };
    }
}

/// The rectangle law: where a colour fills exactly one `h` by `w`
/// rectangle, the raw boundary-edge perimeter of those cells is
/// `2 * (w + h)` and the corner-count perimeter is exactly 4, whatever
/// `h, w >= 1` are.
pub proof fn lemma_rectangle_region_metrics(
    m: GridModel<char>,
    colour: char,
    r0: int,
    c0: int,
    h: int,
    w: int,
)
    requires
        1 <= h,
        1 <= w,
        0 <= r0,
        0 <= c0,
        r0 + h <= usize::MAX,
        c0 + w <= usize::MAX,
        forall|rr: int, cc: int|
            #[trigger] filled_at(m, colour, rr, cc) <==> (r0 <= rr < r0 + h && c0 <= cc < c0 + w),
    ensures
        perimeter_of(m, colour, rect_cells(r0, c0, h, w), PerimeterRule::Edges) == 2 * (w + h),
        perimeter_of(m, colour, rect_cells(r0, c0, h, w), PerimeterRule::Corners) == 4,
{
    lemma_rect_sum(m, colour, PerimeterRule::Edges, r0, c0, h, w, h);
    lemma_rect_sum(m, colour, PerimeterRule::Corners, r0, c0, h, w, h);
    assert((if h >= 1 {
        1nat
    } else {
        0nat
    }) + (if h == h {
        1nat
    } else {
        0nat
    }) == 2);
    assert(w * 2nat + 2 * h == 2 * (w + h)) by (nonlinear_arith);
}

/// `lemma_distinct_points_bound` specialized to a grid model's cells.
proof fn lemma_distinct_points_bound_grid(pts: Seq<Point>, m: GridModel<char>)
    requires
        m.rows >= 0,
        m.cols >= 0,
        pts.no_duplicates(),
        forall|k: int| 0 <= k < pts.len() ==> (#[trigger] m.get(pts[k])) is Some,
    ensures
        pts.len() <= m.rows * m.cols,
{
    assert forall|i: int| 0 <= i < pts.len() implies (#[trigger] pts[i]).0 < m.rows && pts[i].1
        < m.cols by {
        assert(m.get(pts[i]) is Some);
    };
    crate::grid::lemma_distinct_points_bound(pts, m.rows, m.cols);
}

/// Whether the neighbor of `p` one step in direction `d` lies in the grid
/// and holds `colour`.
fn probe(grid: &Grid<char>, p: Point, colour: char, d: Direction) -> (r: bool)
    requires
        grid.wf(),
    ensures
        r == filled_at(
            grid.model(),
            colour,
            p.0 + crate::grid::row_step(d),
            p.1 + crate::grid::col_step(d),
        ),
{
    if let Some(q) = grid.next_position(p, d) {
        if let Some(w) = grid.get(q) {
            return w == colour;
        }
    }
    false
}

/// Whether the diagonal neighbor of `p` between the orthogonal directions
/// `d1` and `d2` lies in the grid and holds `colour`.
fn probe_diag(grid: &Grid<char>, p: Point, colour: char, d1: Direction, d2: Direction) -> (r: bool)
    requires
        grid.wf(),
        grid.model().get(p) is Some,
        orthogonal(d1, d2),
    ensures
        r == filled_at(
            grid.model(),
            colour,
            p.0 + crate::grid::row_step(d1) + crate::grid::row_step(d2),
            p.1 + crate::grid::col_step(d1) + crate::grid::col_step(d2),
        ),
{
    let ghost m = grid.model();
    let ghost dr = crate::grid::row_step(d1) + crate::grid::row_step(d2);
    let ghost dc = crate::grid::col_step(d1) + crate::grid::col_step(d2);
    match grid.next_position(p, d1) {
        Some(q) => {
            match grid.next_position(q, d2) {
                Some(g) => {
                    proof {
                        assert(g.0 == p.0 + dr && g.1 == p.1 + dc);
                    }
                    match grid.get(g) {
                        Some(w) => w == colour,
                        None => {
                            proof {
                                assert(false);
                            }
                            false
                        }
                    }
                }
                None => {
                    proof {
                        assert(!m.in_bounds(q.0 + crate::grid::row_step(d2), q.1
                            + crate::grid::col_step(d2)));
                        assert(!filled_at(m, colour, p.0 + dr, p.1 + dc));
                    }
                    false
                }
            }
        }
        None => {
            proof {
                assert(m.in_bounds(p.0 as int, p.1 as int));
                assert(!m.in_bounds(p.0 + crate::grid::row_step(d1), p.1 + crate::grid::col_step(
                    d1,
                )));
                if crate::grid::row_step(d1) != 0 {
                    assert(crate::grid::row_step(d2) == 0) by (nonlinear_arith)
                        requires
                            crate::grid::row_step(d1) * crate::grid::row_step(d2) == 0,
                            crate::grid::row_step(d1) != 0,
                    ;
                    assert(!(0 <= p.0 + dr < m.rows));
                } else {
                    assert(crate::grid::col_step(d1) != 0);
                    assert(crate::grid::col_step(d2) == 0) by (nonlinear_arith)
                        requires
                            crate::grid::col_step(d1) * crate::grid::col_step(d2) == 0,
                            crate::grid::col_step(d1) != 0,
                    ;
                    assert(!(0 <= p.1 + dc < m.cols));
                }
                assert(!filled_at(m, colour, p.0 + dr, p.1 + dc));
            }
            false
        }
    }
}

/// Counts the boundary edges of one region cell: four minus its
/// same-coloured neighbors.
fn cell_edge_count(grid: &Grid<char>, p: Point, colour: char) -> (r: usize)
    requires
        grid.wf(),
        grid.model().get(p) is Some,
    ensures
        r == edge_contrib(grid.model(), colour, p),
        r <= 4,
{
    let mut edges: usize = 4;
    if probe(grid, p, colour, Direction::Up) {
        edges = edges - 1;
    }
    if probe(grid, p, colour, Direction::Right) {
        edges = edges - 1;
    }
    if probe(grid, p, colour, Direction::Down) {
        edges = edges - 1;
    }
    if probe(grid, p, colour, Direction::Left) {
        edges = edges - 1;
    }
    edges
}

/// Counts the corners one region cell touches at the vertex between the
/// orthogonal directions `d1` and `d2`.
fn cell_vertex_count(
    grid: &Grid<char>,
    p: Point,
    colour: char,
    d1: Direction,
    d2: Direction,
) -> (r: usize)
    requires
        grid.wf(),
        grid.model().get(p) is Some,
        orthogonal(d1, d2),
    ensures
        r == corner_vertex(grid.model(), colour, p, d1, d2),
        r <= 1,
{
    let s1 = probe(grid, p, colour, d1);
    let s2 = probe(grid, p, colour, d2);
    let diag = probe_diag(grid, p, colour, d1, d2);
    if !s1 && !s2 {
        1
    } else if s1 && s2 && !diag {
        1
    } else {
        0
    }
}

/// Counts the corners of the region outline that touch one region cell.
fn cell_corner_count(grid: &Grid<char>, p: Point, colour: char) -> (r: usize)
    requires
        grid.wf(),
        grid.model().get(p) is Some,
    ensures
        r == corner_contrib(grid.model(), colour, p),
        r <= 4,
{
    let a = cell_vertex_count(grid, p, colour, Direction::Up, Direction::Right);
    let b = cell_vertex_count(grid, p, colour, Direction::Right, Direction::Down);
    let c = cell_vertex_count(grid, p, colour, Direction::Down, Direction::Left);
    let d = cell_vertex_count(grid, p, colour, Direction::Left, Direction::Up);
    a + b + c + d
}

/// Sums the chosen per-cell perimeter contribution over a region, or
/// `None` when the total does not fit a `usize`.
fn region_perimeter(
    grid: &Grid<char>,
    region: &Vec<Point>,
    colour: char,
    rule: PerimeterRule,
) -> (r: Option<usize>)
    requires
        grid.wf(),
        region@.no_duplicates(),
        forall|k: int| 0 <= k < region@.len()
            ==> grid.model().get(#[trigger] region@[k]) == Some(colour),
    ensures
        r matches Some(v) ==> v == perimeter_of(grid.model(), colour, region@.to_set(), rule),
        r is None ==> perimeter_of(grid.model(), colour, region@.to_set(), rule) > usize::MAX,
{
    let ghost m = grid.model();
    let ghost f = |p: Point| rule_contrib(m, colour, rule, p);
    let mut acc: usize = 0;
    let mut i: usize = 0;
    proof {
        let g = |acc: nat, q: Point| acc + f(q);
        assert(vstd::set::fold::is_fun_commutative(g));
        vstd::set::fold::lemma_fold_empty(0nat, g);
        assert(region@.take(0) =~= Seq::<Point>::empty());
        assert(region@.take(0).to_set() =~= Set::<Point>::empty());
    }
    while i < region.len()
        invariant
            grid.wf(),
            m == grid.model(),
            f == (|p: Point| rule_contrib(m, colour, rule, p)),
            0 <= i <= region@.len(),
            region@.no_duplicates(),
            forall|k: int| 0 <= k < region@.len()
                ==> m.get(#[trigger] region@[k]) == Some(colour),
            acc == contrib_sum(region@.take(i as int).to_set(), f),
        decreases region@.len() - i,
    {
        let p = region[i];
        let cell_count = match rule {
            PerimeterRule::Edges => cell_edge_count(grid, p, colour),
            PerimeterRule::Corners => cell_corner_count(grid, p, colour),
        };
        proof {
            assert(cell_count == f(p));
            assert(region@.take(i as int).to_set().finite());
            assert(!region@.take(i as int).contains(p));
            assert(!region@.take(i as int).to_set().contains(p));
            lemma_contrib_sum_insert(region@.take(i as int).to_set(), f, p);
            assert(region@.take(i as int + 1) =~= region@.take(i as int).push(p));
            assert(region@.take(i as int + 1).to_set() =~= region@.take(i as int).to_set().insert(
                p,
            ));
        }
        if acc > usize::MAX - cell_count {
            proof {
                let done = region@.take(i as int + 1).to_set();
                let rest = region@.skip(i as int + 1).to_set();
                assert(region@ =~= region@.take(i as int + 1) + region@.skip(i as int + 1));
                assert(region@.to_set() =~= done.union(rest));
                assert(done.disjoint(rest)) by {
                    assert forall|x: Point| done.contains(x) implies !rest.contains(x) by {
                        if rest.contains(x) {
                            let front = region@.take(i as int + 1);
                            let back = region@.skip(i as int + 1);
                            let a = choose|a: int| 0 <= a < front.len() && (#[trigger] front[a]) == x;
                            let b = choose|b: int| 0 <= b < back.len() && (#[trigger] back[b]) == x;
                            assert(region@[a] == x);
                            assert(region@[b + i + 1] == x);
                        }
                    };
                };
                lemma_contrib_sum_union(done, rest, f);
                assert(contrib_sum(region@.to_set(), f) >= acc + cell_count);
            }
            return None;
        }
        acc = acc + cell_count;
        i = i + 1;
    }
    proof {
        assert(region@.take(region@.len() as int) =~= region@);
    }
    Some(acc)
}

/// The area and perimeter of the same-coloured region around `start`: its
/// cell count, and its boundary measured by the chosen rule. A start the
/// scan has already seen yields `(0, 0)`; a fresh start marks its whole
/// region in `seen`.
pub fn calc_perimeter_and_area(
    grid: &Grid<char>,
    seen: &mut ahash::AHashSet<Point>,
    start: Point,
    colour: char,
    rule: PerimeterRule,
) -> (r: Result<(usize, usize), RegionError>)
    requires
        grid.wf(),
        grid.model().get(start) == Some(colour),
        point_set_view(old(seen)).finite(),
        step_closed(grid.model(), point_set_view(old(seen))),
    ensures
        point_set_view(old(seen)).contains(start) ==> r == Ok::<(usize, usize), RegionError>((
            0usize,
            0usize,
        )) && point_set_view(final(seen)) == point_set_view(old(seen)),
        !point_set_view(old(seen)).contains(start) ==> {
            &&& point_set_view(final(seen)) == point_set_view(old(seen)).union(
                component(grid.model(), colour, start),
            )
            &&& r matches Ok(pa) ==> pa.1 == component(grid.model(), colour, start).len()
                && pa.0 == perimeter_of(
                    grid.model(),
                    colour,
                    component(grid.model(), colour, start),
                    rule,
                )
            &&& r matches Err(e) ==> e == RegionError::Overflow && perimeter_of(
                grid.model(),
                colour,
                component(grid.model(), colour, start),
                rule,
            ) > usize::MAX && component(grid.model(), colour, start).len() >= 1
        },
        point_set_view(final(seen)).finite(),
        step_closed(grid.model(), point_set_view(final(seen))),
        r matches Err(e) ==> e == RegionError::Overflow,
    decreases 0int,
{
    let ghost m = grid.model();
    if point_set_contains(seen, start) {
        return Ok((0, 0));
    }
    proof {
        lemma_component_misses_closed(m, colour, start, point_set_view(seen));
    }
    let region = flood_region(grid, start, colour, seen);
    proof {
        let comp = component(m, colour, start);
        region@.unique_seq_to_set();
        assert(region@.to_set().len() == region@.len());
        assert(step_closed(m, point_set_view(seen))) by {
            assert forall|a: Point, b: Point|
                point_set_view(seen).contains(a) && #[trigger] touching(a, b) && m.get(a) is Some
                    && m.get(b) == m.get(a) implies point_set_view(seen).contains(b) by {
                if comp.contains(a) {
                    let path = choose|path: Seq<Point>|
                        #[trigger] is_path(m, colour, path) && path.first() == start && path.last()
                            == a;
                    assert(filled(m, colour, path.last()));
                    assert(m.get(a) == Some(colour));
                    lemma_connected_extend(m, colour, start, a, b);
                }
            };
        };
    }
    let area = region.len();
    match region_perimeter(grid, &region, colour, rule) {
        Some(per) => Ok((per, area)),
        None => Err(RegionError::Overflow),
    }
}


/// The total price of the regions discovered at `(r, c)` and after it in
/// row-major order, with `seen` holding the cells of regions discovered
/// earlier: each fresh region contributes its area times its perimeter
/// under the chosen rule.
pub open spec fn scan_sum(
    m: GridModel<char>,
    r: int,
    c: int,
    seen: Set<Point>,
    rule: PerimeterRule,
) -> nat
    decreases m.rows - r, m.cols - c
        when 0 <= r && 0 <= c <= m.cols && m.wf()
{
    if r >= m.rows {
        0
    } else if c >= m.cols {
        scan_sum(m, r + 1, 0, seen, rule)
    } else {
        let p = (r as usize, c as usize);
        if seen.contains(p) {
            scan_sum(m, r, c + 1, seen, rule)
        } else {
            let colour = m.cells[r * m.cols + c];
            let comp = component(m, colour, p);
            perimeter_of(m, colour, comp, rule) * comp.len() + scan_sum(
                m,
                r,
                c + 1,
                seen.union(comp),
                rule,
            )
        }
    }
}

/// Sums area times perimeter over every region of the field, under the
/// chosen rule.
pub fn total_price(grid: &Grid<char>, rule: PerimeterRule) -> (res: Result<usize, RegionError>)
    requires
        grid.wf(),
    ensures
        res matches Ok(v) ==> v == scan_sum(grid.model(), 0, 0, Set::empty(), rule),
        res matches Err(e) ==> e == RegionError::Overflow && scan_sum(
            grid.model(),
            0,
            0,
            Set::empty(),
            rule,
        ) > usize::MAX,
{
    let ghost m = grid.model();
    let mut seen = point_set_new();
    let mut acc: usize = 0;
    let mut r: usize = 0;
    proof {
        assert(step_closed(m, point_set_view(&seen)));
    }
    while r < grid.rows
        invariant
            grid.wf(),
            m == grid.model(),
            0 <= r <= grid.rows,
            point_set_view(&seen).finite(),
            step_closed(m, point_set_view(&seen)),
            acc + scan_sum(m, r as int, 0, point_set_view(&seen), rule) == scan_sum(
                m,
                0,
                0,
                Set::empty(),
                rule,
            ),
        decreases grid.rows - r,
    {
        let mut c: usize = 0;
        while c < grid.columns
            invariant
                grid.wf(),
                m == grid.model(),
                0 <= r < grid.rows,
                0 <= c <= grid.columns,
                point_set_view(&seen).finite(),
                step_closed(m, point_set_view(&seen)),
                acc + scan_sum(m, r as int, c as int, point_set_view(&seen), rule) == scan_sum(
                    m,
                    0,
                    0,
                    Set::empty(),
                    rule,
                ),
            decreases grid.columns - c,
        {
            let colour = match grid.get((r, c)) {
                Some(x) => x,
                None => {
                    proof {
                        assert(false);
                    }
                    ' '
                }
            };
            let ghost comp = component(m, colour, (r, c));
            let ghost seen0 = point_set_view(&seen);
            let pa = calc_perimeter_and_area(grid, &mut seen, (r, c), colour, rule);
            match pa {
                Ok((per, area)) => {
                    let price = match per.checked_mul(area) {
                        Some(x) => x,
                        None => {
                            proof {
                                if !seen0.contains((r, c)) {
                                    assert(m.cells[r as int * m.cols + c as int] == colour);
                                    assert(scan_sum(m, r as int, c as int, seen0, rule)
                                        == perimeter_of(m, colour, comp, rule) * comp.len()
                                            + scan_sum(m, r as int, c as int + 1, seen0.union(comp), rule));
                                    assert(per * area == perimeter_of(m, colour, comp, rule) * comp.len());
                                }
                                assert(scan_sum(m, 0, 0, Set::empty(), rule) >= acc + per * area);
                            }
                            return Err(RegionError::Overflow);
                        }
                    };
                    if acc > usize::MAX - price {
                        proof {
                            assert(scan_sum(m, 0, 0, Set::empty(), rule) >= acc + price);
                        }
                        return Err(RegionError::Overflow);
                    }
                    acc = acc + price;
                }
                Err(_) => {
                    proof {
                        let pnat = perimeter_of(m, colour, comp, rule);
                        assert(pnat * comp.len() >= pnat * 1) by (nonlinear_arith)
                            requires
                                comp.len() >= 1,
                        ;
                        assert(scan_sum(m, 0, 0, Set::empty(), rule) >= acc + pnat * comp.len());
                    }
                    return Err(RegionError::Overflow);
                }
            }
            c = c + 1;
        }
        r = r + 1;
    }
    Ok(acc)
}

/// The total fencing price with the raw boundary-edge perimeter: for every
/// region, its area times its edge count, summed over the whole field.
pub fn part1(input: &str) -> (res: Result<usize, RegionError>)
    ensures
        res matches Err(RegionError::Ragged) <==> ragged(lines_of(input@)),
        res matches Ok(v) ==> v == scan_sum(
            spec_text_model(input@),
            0,
            0,
            Set::empty(),
            PerimeterRule::Edges,
        ),
        res matches Err(RegionError::Overflow) ==> scan_sum(
            spec_text_model(input@),
            0,
            0,
            Set::empty(),
            PerimeterRule::Edges,
        ) > usize::MAX,
{
    let grid = match parse(input) {
        Ok(g) => g,
        Err(_) => {
            return Err(RegionError::Ragged);
        }
    };
    total_price(&grid, PerimeterRule::Edges)
}

/// The total fencing price with the corner-count perimeter: for every
/// region, its area times the number of sides of its outline, summed over
/// the whole field.
pub fn part2(input: &str) -> (res: Result<usize, RegionError>)
    ensures
        res matches Err(RegionError::Ragged) <==> ragged(lines_of(input@)),
        res matches Ok(v) ==> v == scan_sum(
            spec_text_model(input@),
            0,
            0,
            Set::empty(),
            PerimeterRule::Corners,
        ),
        res matches Err(RegionError::Overflow) ==> scan_sum(
            spec_text_model(input@),
            0,
            0,
            Set::empty(),
            PerimeterRule::Corners,
        ) > usize::MAX,
{
    let grid = match parse(input) {
        Ok(g) => g,
        Err(_) => {
            return Err(RegionError::Ragged);
        }
    };
    total_price(&grid, PerimeterRule::Corners)
}

} // verus!
