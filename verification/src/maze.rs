//! Weighted shortest-path search with a direction-dependent cost: moving
//! one cell straight ahead costs 1, a move that first turns 90 degrees
//! costs 1001, and U-turns are forbidden. The search runs over states of
//! position and facing, finalizing each state once in ascending cost
//! order, and answers both the minimal cost to the end marker and the
//! number of cells lying on any cost-minimal route.

use vstd::prelude::*;

use crate::grid::lines_of;
use crate::grid::ragged;
use crate::grid::spec_columns;
use crate::grid::Direction;
use crate::grid::Grid;
use crate::grid::GridModel;
use crate::grid::Point;

verus! {

/// One search state: a position together with the direction faced on
/// arrival.
pub type Node = (Point, Direction);

/// Whether the cell at `p` is inside the grid and passable.
pub open spec fn open_cell(m: GridModel<char>, p: Point) -> bool {
    match m.get(p) {
        Some(ch) => ch != '#',
        None => false,
    }
}

/// One legal move: from `a`, step one cell in the direction `b` faces,
/// which must not reverse `a`'s facing, onto a passable cell.
pub open spec fn step(m: GridModel<char>, a: Node, b: Node) -> bool {
    &&& open_cell(m, a.0)
    &&& open_cell(m, b.0)
    &&& m.next(a.0, b.1) == Some(b.0)
    &&& b.1 != a.1.spec_opposite()
}

/// What one move costs: 1 straight ahead, 1001 with a turn.
pub open spec fn step_w(a: Node, b: Node) -> nat {
    if a.1 == b.1 {
        1
    } else {
        1001
    }
}

/// A legal route: passable states whose consecutive pairs are legal moves.
pub open spec fn legal_route(m: GridModel<char>, rt: Seq<Node>) -> bool {
    &&& rt.len() >= 1
    &&& forall|i: int| 0 <= i < rt.len() ==> open_cell(m, (#[trigger] rt[i]).0)
    &&& forall|i: int| 0 <= i < rt.len() - 1 ==> step(m, #[trigger] rt[i], rt[i + 1])
}

/// The cost of a route: the sum of its move costs.
pub open spec fn route_cost(rt: Seq<Node>) -> nat
    decreases rt.len(),
{
    if rt.len() <= 1 {
        0
    } else {
        route_cost(rt.drop_last()) + step_w(rt[rt.len() - 2], rt[rt.len() - 1])
    }
}

/// Whether a legal route of cost `k` leads from `a` to `b`.
pub open spec fn reaches(m: GridModel<char>, a: Node, b: Node, k: nat) -> bool {
    exists|rt: Seq<Node>|
        #[trigger] legal_route(m, rt) && rt.first() == a && rt.last() == b && route_cost(rt) == k
}

/// Whether a route of cost `k` connects `s` with one of `inits`: leaving
/// from one of them in the forward direction, or arriving at one of them
/// in the reversed direction.
pub open spec fn realizable(
    m: GridModel<char>,
    rev: bool,
    inits: Seq<Node>,
    s: Node,
    k: nat,
) -> bool {
    exists|t: int|
        0 <= t < inits.len() && (if rev {
            reaches(m, s, #[trigger] inits[t], k)
        } else {
            reaches(m, inits[t], s, k)
        })
}

/// The edge relation the search expands, oriented by `rev`.
pub open spec fn succ(m: GridModel<char>, rev: bool, a: Node, b: Node) -> bool {
    if rev {
        step(m, b, a)
    } else {
        step(m, a, b)
    }
}

/// The weight of such an edge.
pub open spec fn succ_w(rev: bool, a: Node, b: Node) -> nat {
    if rev {
        step_w(b, a)
    } else {
        step_w(a, b)
    }
}

/// The index of a direction in the fixed Up, Right, Down, Left order.
pub open spec fn dir_index(d: Direction) -> int {
    match d {
        Direction::Up => 0,
        Direction::Right => 1,
        Direction::Down => 2,
        Direction::Left => 3,
    }
}

/// The flat index of a search state: four entries per cell, in row-major
/// cell order.
pub open spec fn sidx(m: GridModel<char>, s: Node) -> int {
    (s.0.0 * m.cols + s.0.1) * 4 + dir_index(s.1)
}

/// A state over an in-range cell has its index inside the table, and
/// distinct states have distinct indices.
pub proof fn lemma_sidx_bounds(m: GridModel<char>, s: Node)
    requires
        m.in_bounds(s.0.0 as int, s.0.1 as int),
    ensures
        0 <= sidx(m, s) < 4 * (m.rows * m.cols),
{
    crate::grid::lemma_row_major_index(m.rows, m.cols, s.0.0 as int, s.0.1 as int);
    assert(4 * (s.0.0 * m.cols + s.0.1) + dir_index(s.1) < 4 * (m.rows * m.cols)) by (nonlinear_arith)
        requires
            0 <= s.0.0 * m.cols + s.0.1 < m.rows * m.cols,
            0 <= dir_index(s.1) < 4,
    ;
    assert((s.0.0 * m.cols + s.0.1) * 4 == 4 * (s.0.0 * m.cols + s.0.1)) by (nonlinear_arith);
}

/// Distinct states over in-range cells occupy distinct table entries.
pub proof fn lemma_sidx_injective(m: GridModel<char>, s1: Node, s2: Node)
    requires
        m.in_bounds(s1.0.0 as int, s1.0.1 as int),
        m.in_bounds(s2.0.0 as int, s2.0.1 as int),
        s1 != s2,
    ensures
        sidx(m, s1) != sidx(m, s2),
{
    let f1 = s1.0.0 * m.cols + s1.0.1;
    let f2 = s2.0.0 * m.cols + s2.0.1;
    if sidx(m, s1) == sidx(m, s2) {
        vstd::arithmetic::div_mod::lemma_fundamental_div_mod_converse(
            f1 * 4 + dir_index(s1.1),
            4,
            f1,
            dir_index(s1.1),
        );
        vstd::arithmetic::div_mod::lemma_fundamental_div_mod_converse(
            f2 * 4 + dir_index(s2.1),
            4,
            f2,
            dir_index(s2.1),
        );
        assert(f1 == f2 && dir_index(s1.1) == dir_index(s2.1));
        if m.cols > 0 {
            vstd::arithmetic::div_mod::lemma_fundamental_div_mod_converse(
                f1,
                m.cols,
                s1.0.0 as int,
                s1.0.1 as int,
            );
            vstd::arithmetic::div_mod::lemma_fundamental_div_mod_converse(
                f2,
                m.cols,
                s2.0.0 as int,
                s2.0.1 as int,
            );
        }
        assert(s1.0 == s2.0 && s1.1 == s2.1);
        assert(false);
    }
}

/// A passable starting state is joined to itself by the empty route.
pub proof fn lemma_realizable_self(
    m: GridModel<char>,
    rev: bool,
    inits: Seq<Node>,
    t: int,
)
    requires
        0 <= t < inits.len(),
        open_cell(m, inits[t].0),
    ensures
        realizable(m, rev, inits, inits[t], 0),
{
    let rt = seq![inits[t]];
    assert(legal_route(m, rt));
    assert(route_cost(rt) == 0);
    assert(reaches(m, inits[t], inits[t], 0));
}

/// Prepending a state adds that first move's cost.
pub proof fn lemma_route_cost_prepend(b: Node, rt: Seq<Node>)
    requires
        rt.len() >= 1,
    ensures
        route_cost(seq![b] + rt) == step_w(b, rt[0]) + route_cost(rt),
    decreases rt.len(),
{
    let whole = seq![b] + rt;
    if rt.len() == 1 {
        assert(whole.len() == 2);
        assert(whole.drop_last() =~= seq![b]);
        assert(route_cost(whole) == route_cost(seq![b]) + step_w(whole[0], whole[1]));
    } else {
        lemma_route_cost_prepend(b, rt.drop_last());
        assert(whole.drop_last() =~= seq![b] + rt.drop_last());
        assert(whole[whole.len() - 2] == rt[rt.len() - 2]);
        assert(whole[whole.len() - 1] == rt[rt.len() - 1]);
        assert((seq![b] + rt.drop_last())[0] == b);
        assert(rt.drop_last()[0] == rt[0]);
    }
}

/// A connection extends across one search edge, in the direction the
/// search runs.
pub proof fn lemma_realizable_step(
    m: GridModel<char>,
    rev: bool,
    inits: Seq<Node>,
    a: Node,
    b: Node,
    k: nat,
)
    requires
        realizable(m, rev, inits, a, k),
        succ(m, rev, a, b),
    ensures
        realizable(m, rev, inits, b, k + succ_w(rev, a, b)),
{
    let t = choose|t: int|
        0 <= t < inits.len() && (if rev {
            reaches(m, a, #[trigger] inits[t], k)
        } else {
            reaches(m, inits[t], a, k)
        });
    if rev {
        let rt = choose|rt: Seq<Node>|
            #[trigger] legal_route(m, rt) && rt.first() == a && rt.last() == inits[t]
                && route_cost(rt) == k;
        let whole = seq![b] + rt;
        assert(forall|i: int| 0 <= i < rt.len() ==> whole[i + 1] == rt[i]);
        assert(whole[0] == b);
        assert(step(m, b, a));
        assert(legal_route(m, whole));
        lemma_route_cost_prepend(b, rt);
        assert(route_cost(whole) == k + step_w(b, a));
        assert(whole.first() == b && whole.last() == inits[t]);
        assert(reaches(m, b, inits[t], k + succ_w(rev, a, b)));
    } else {
        let rt = choose|rt: Seq<Node>|
            #[trigger] legal_route(m, rt) && rt.first() == inits[t] && rt.last() == a
                && route_cost(rt) == k;
        let whole = rt.push(b);
        assert(forall|i: int| 0 <= i < rt.len() ==> whole[i] == rt[i]);
        assert(whole[whole.len() - 1] == b);
        assert(step(m, a, b));
        assert(legal_route(m, whole));
        assert(whole.drop_last() =~= rt);
        assert(route_cost(whole) == k + step_w(a, b));
        assert(whole.first() == inits[t] && whole.last() == b);
        assert(reaches(m, inits[t], b, k + succ_w(rev, a, b)));
    }
}

/// How many entries of a flag table are set.
pub open spec fn count_true(s: Seq<bool>) -> nat
    decreases s.len(),
{
    if s.len() == 0 {
        0
    } else {
        count_true(s.drop_last()) + (if s.last() {
            1nat
        } else {
            0nat
        })
    }
}

/// The set-flag count never exceeds the table's length.
pub proof fn lemma_count_true_bound(s: Seq<bool>)
    ensures
        count_true(s) <= s.len(),
    decreases s.len(),
{
    if s.len() > 0 {
        lemma_count_true_bound(s.drop_last());
    }
}

/// Setting a clear flag raises the count by one.
pub proof fn lemma_count_true_update(s: Seq<bool>, i: int)
    requires
        0 <= i < s.len(),
        !s[i],
    ensures
        count_true(s.update(i, true)) == count_true(s) + 1,
    decreases s.len(),
{
    if i == s.len() - 1 {
        assert(s.update(i, true).drop_last() =~= s.drop_last());
    } else {
        assert(s.update(i, true).drop_last() =~= s.drop_last().update(i, true));
        lemma_count_true_update(s.drop_last(), i);
    }
}

/// A table of clear flags has count zero.
pub proof fn lemma_count_true_push(s: Seq<bool>, b: bool)
    ensures
        count_true(s.push(b)) == count_true(s) + (if b {
            1nat
        } else {
            0nat
        }),
{
    assert(s.push(b).drop_last() =~= s);
}

/// The value a distance table holds at a state's index.
pub open spec fn dist_at(m: GridModel<char>, dist: Seq<Option<u64>>, s: Node) -> Option<u64> {
    dist[sidx(m, s)]
}

/// After the search has drained its frontier, every legal route from the
/// initial states is dominated by the table: its far end is finalized at a
/// cost no greater than the route's.
pub proof fn lemma_route_bound(
    m: GridModel<char>,
    rev: bool,
    inits: Seq<Node>,
    dist: Seq<Option<u64>>,
    fin: Seq<bool>,
    rt: Seq<Node>,
)
    requires
        dist.len() == 4 * (m.rows * m.cols),
        fin.len() == dist.len(),
        legal_route(m, rt),
        forall|t: int|
            0 <= t < inits.len() ==> m.in_bounds((#[trigger] inits[t]).0.0 as int, inits[t].0.1 as int)
                && fin[sidx(m, inits[t])] && dist[sidx(m, inits[t])] == Some(0u64),
        forall|s1: Node, s2: Node|
            m.in_bounds(s1.0.0 as int, s1.0.1 as int) && fin[sidx(m, s1)] && open_cell(m, s1.0)
                && #[trigger] succ(m, rev, s1, s2) ==> fin[sidx(m, s2)] && dist[sidx(m, s2)] is Some
                && dist[sidx(m, s2)].unwrap() <= dist[sidx(m, s1)].unwrap() + succ_w(rev, s1, s2),
        forall|s1: Node|
            m.in_bounds(s1.0.0 as int, s1.0.1 as int) && #[trigger] fin[sidx(m, s1)] ==> dist[sidx(
                m,
                s1,
            )] is Some,
        !rev ==> exists|t: int| 0 <= t < inits.len() && rt.first() == inits[t],
        rev ==> exists|t: int| 0 <= t < inits.len() && rt.last() == inits[t],
    ensures
        !rev ==> fin[sidx(m, rt.last())] && dist[sidx(m, rt.last())] is Some && dist[sidx(
            m,
            rt.last(),
        )].unwrap() <= route_cost(rt),
        rev ==> fin[sidx(m, rt.first())] && dist[sidx(m, rt.first())] is Some && dist[sidx(
            m,
            rt.first(),
        )].unwrap() <= route_cost(rt),
    decreases rt.len(),
{
    if rt.len() == 1 {
        assert(route_cost(rt) == 0);
    } else {
        if !rev {
            let prefix = rt.drop_last();
            assert(forall|i: int| 0 <= i < prefix.len() ==> prefix[i] == rt[i]);
            assert(legal_route(m, prefix));
            assert(prefix.first() == rt.first());
            lemma_route_bound(m, rev, inits, dist, fin, prefix);
            let a = rt[rt.len() - 2];
            let b = rt[rt.len() - 1];
            assert(step(m, a, b));
            assert(succ(m, rev, a, b));
            assert(m.in_bounds(a.0.0 as int, a.0.1 as int));
            assert(route_cost(rt) == route_cost(prefix) + step_w(a, b));
        } else {
            let tail = rt.skip(1);
            assert(forall|i: int| 0 <= i < tail.len() ==> tail[i] == rt[i + 1]);
            assert(legal_route(m, tail));
            assert(tail.last() == rt.last());
            lemma_route_bound(m, rev, inits, dist, fin, tail);
            let a = rt[1];
            let b = rt[0];
            assert(step(m, b, a));
            assert(succ(m, rev, a, b));
            assert(m.in_bounds(a.0.0 as int, a.0.1 as int));
            assert(rt == seq![rt[0]] + tail) by {
                assert(rt =~= seq![rt[0]] + tail);
            };
            lemma_route_cost_prepend(rt[0], tail);
            assert(route_cost(rt) == step_w(b, a) + route_cost(tail));
            assert(succ_w(rev, a, b) == step_w(b, a));
        }
    }
}

/// Whether the frontier holds an entry for state `s` costing at most `b`.
pub open spec fn has_entry(q: Seq<(u64, Point, Direction)>, s: Node, b: int) -> bool {
    exists|qi: int|
        0 <= qi < q.len() && ((#[trigger] q[qi]).1, q[qi].2) == s && q[qi].0 <= b
}

/// A frontier entry survives the removal of another entry, or was the
/// removed entry itself.
pub proof fn lemma_has_entry_remove(q: Seq<(u64, Point, Direction)>, mi: int, s: Node, b: int)
    requires
        0 <= mi < q.len(),
        has_entry(q, s, b),
    ensures
        has_entry(q.remove(mi), s, b) || ((q[mi].1, q[mi].2) == s && q[mi].0 <= b),
{
    let qi = choose|qi: int| 0 <= qi < q.len() && ((#[trigger] q[qi]).1, q[qi].2) == s && q[qi].0 <= b;
    if qi != mi {
        if qi < mi {
            assert(q.remove(mi)[qi] == q[qi]);
        } else {
            assert(q.remove(mi)[qi - 1] == q[qi]);
        }
    }
}

/// The largest cell count the search accepts; it keeps every cost the
/// search can build comfortably inside a `u64`.
pub const MAX_SEARCH_CELLS: usize = 0x0100_0000;

/// The table index of the state `(p, d)`.
fn state_index(grid: &Grid<char>, p: Point, d: Direction) -> (r: usize)
    requires
        grid.wf(),
        grid.model().in_bounds(p.0 as int, p.1 as int),
        grid.model().rows * grid.model().cols <= MAX_SEARCH_CELLS,
    ensures
        r == sidx(grid.model(), (p, d)),
        r < 4 * (grid.model().rows * grid.model().cols),
{
    proof {
        assert(grid.s.len() == grid.s@.len());
        crate::grid::lemma_row_major_index(
            grid.model().rows,
            grid.model().cols,
            p.0 as int,
            p.1 as int,
        );
        lemma_sidx_bounds(grid.model(), (p, d));
    }
    let cell = p.0 * grid.columns + p.1;
    let di: usize = match d {
        Direction::Up => 0,
        Direction::Right => 1,
        Direction::Down => 2,
        Direction::Left => 3,
    };
    cell * 4 + di
}

/// Pushes the forward edge out of `(p, d)` that moves in direction `nd`,
/// when that move is legal: one step onto a passable cell, not a U-turn.
fn try_push_forward(
    grid: &Grid<char>,
    queue: &mut Vec<(u64, Point, Direction)>,
    p: Point,
    d: Direction,
    c: u64,
    nd: Direction,
    Ghost(m): Ghost<GridModel<char>>,
    Ghost(inits): Ghost<Seq<Node>>,
)
    requires
        grid.wf(),
        m == grid.model(),
        open_cell(m, p),
        realizable(m, false, inits, (p, d), c as nat),
        c <= u64::MAX - 1001,
    ensures
        final(queue)@.len() >= old(queue)@.len(),
        final(queue)@.len() <= old(queue)@.len() + 1,
        forall|qi: int|
            0 <= qi < old(queue)@.len() ==> #[trigger] final(queue)@[qi] == old(queue)@[qi],
        forall|qi: int|
            old(queue)@.len() <= qi < final(queue)@.len() ==> {
                let e = #[trigger] final(queue)@[qi];
                open_cell(m, e.1) && realizable(m, false, inits, (e.1, e.2), e.0 as nat) && c
                    <= e.0 <= c + 1001
            },
        forall|s2: Node|
            #[trigger] succ(m, false, (p, d), s2) && s2.1 == nd ==> has_entry(
                final(queue)@,
                s2,
                c + succ_w(false, (p, d), s2),
            ),
        forall|s: Node, b: int|
            #[trigger] has_entry(old(queue)@, s, b) ==> has_entry(final(queue)@, s, b),
{
    let ghost q0 = queue@;
    if !(nd == d.opposite()) {
        if let Some(q) = grid.next_position(p, nd) {
            if let Some(ch) = grid.get(q) {
                if ch != '#' {
                    let w: u64 = if nd == d {
                        1
                    } else {
                        1001
                    };
                    proof {
                        assert(step(m, (p, d), (q, nd)));
                        lemma_realizable_step(m, false, inits, (p, d), (q, nd), c as nat);
                    }
                    queue.push((c + w, q, nd));
                }
            }
        }
    }
    proof {
        assert forall|s2: Node|
            #[trigger] succ(m, false, (p, d), s2) && s2.1 == nd implies has_entry(
            queue@,
            s2,
            c + succ_w(false, (p, d), s2),
        ) by {
            assert(m.next(p, nd) == Some(s2.0));
            assert(queue@[queue@.len() - 1].1 == s2.0);
            assert(queue@[queue@.len() - 1].2 == nd);
            assert(queue@[queue@.len() - 1].0 <= c + succ_w(false, (p, d), s2));
        };
        assert forall|s: Node, b: int| #[trigger] has_entry(q0, s, b) implies has_entry(
            queue@,
            s,
            b,
        ) by {
            let qi = choose|qi: int|
                0 <= qi < q0.len() && ((#[trigger] q0[qi]).1, q0[qi].2) == s && q0[qi].0 <= b;
            assert(queue@[qi] == q0[qi]);
        };
    }
}

/// Pushes the backward edge out of `(p, d)` whose far state faces `nd`,
/// when the corresponding forward move onto `p` is legal.
fn try_push_backward(
    grid: &Grid<char>,
    queue: &mut Vec<(u64, Point, Direction)>,
    p: Point,
    d: Direction,
    c: u64,
    nd: Direction,
    Ghost(m): Ghost<GridModel<char>>,
    Ghost(inits): Ghost<Seq<Node>>,
)
    requires
        grid.wf(),
        m == grid.model(),
        open_cell(m, p),
        realizable(m, true, inits, (p, d), c as nat),
        c <= u64::MAX - 1001,
    ensures
        final(queue)@.len() >= old(queue)@.len(),
        final(queue)@.len() <= old(queue)@.len() + 1,
        forall|qi: int|
            0 <= qi < old(queue)@.len() ==> #[trigger] final(queue)@[qi] == old(queue)@[qi],
        forall|qi: int|
            old(queue)@.len() <= qi < final(queue)@.len() ==> {
                let e = #[trigger] final(queue)@[qi];
                open_cell(m, e.1) && realizable(m, true, inits, (e.1, e.2), e.0 as nat) && c
                    <= e.0 <= c + 1001
            },
        forall|s2: Node|
            #[trigger] succ(m, true, (p, d), s2) && s2.1 == nd ==> has_entry(
                final(queue)@,
                s2,
                c + succ_w(true, (p, d), s2),
            ),
        forall|s: Node, b: int|
            #[trigger] has_entry(old(queue)@, s, b) ==> has_entry(final(queue)@, s, b),
{
    let ghost q0 = queue@;
    if !(d == nd.opposite()) {
        if let Some(q) = grid.next_position(p, d.opposite()) {
            if let Some(ch) = grid.get(q) {
                if ch != '#' {
                    let w: u64 = if nd == d {
                        1
                    } else {
                        1001
                    };
                    proof {
                        assert(m.next(q, d) == Some(p));
                        assert(step(m, (q, nd), (p, d)));
                        assert(succ(m, true, (p, d), (q, nd)));
                        lemma_realizable_step(m, true, inits, (p, d), (q, nd), c as nat);
                        assert(succ_w(true, (p, d), (q, nd)) == (if nd == d {
                            1nat
                        } else {
                            1001nat
                        }));
                    }
                    queue.push((c + w, q, nd));
                }
            }
        }
    }
    proof {
        assert forall|s2: Node|
            #[trigger] succ(m, true, (p, d), s2) && s2.1 == nd implies has_entry(
            queue@,
            s2,
            c + succ_w(true, (p, d), s2),
        ) by {
            assert(step(m, s2, (p, d)));
            assert(m.next(s2.0, d) == Some(p));
            assert(m.in_bounds(s2.0.0 as int, s2.0.1 as int));
            assert(s2.0.0 + crate::grid::row_step(d) == p.0 as int);
            assert(s2.0.1 + crate::grid::col_step(d) == p.1 as int);
            assert(m.next(p, d.spec_opposite()) == Some(s2.0));
            assert(queue@[queue@.len() - 1].1 == s2.0);
            assert(queue@[queue@.len() - 1].2 == nd);
            assert(queue@[queue@.len() - 1].0 <= c + succ_w(true, (p, d), s2));
        };
        assert forall|s: Node, b: int| #[trigger] has_entry(q0, s, b) implies has_entry(
            queue@,
            s,
            b,
        ) by {
            let qi = choose|qi: int|
                0 <= qi < q0.len() && ((#[trigger] q0[qi]).1, q0[qi].2) == s && q0[qi].0 <= b;
            assert(queue@[qi] == q0[qi]);
        };
    }
}

/// Finalizes the popped state at cost `c` and pushes its outgoing edges,
/// restoring every search invariant.
#[verifier::rlimit(100)]
fn finalize_and_expand(
    grid: &Grid<char>,
    queue: &mut Vec<(u64, Point, Direction)>,
    dist: &mut Vec<Option<u64>>,
    fin: &mut Vec<bool>,
    fin_count: &mut usize,
    rev: bool,
    c: u64,
    p: Point,
    d: Direction,
    si: usize,
    Ghost(m): Ghost<GridModel<char>>,
    Ghost(inits): Ghost<Seq<Node>>,
    Ghost(oldq): Ghost<Seq<(u64, Point, Direction)>>,
    Ghost(mi): Ghost<int>,
    Ghost(nst): Ghost<int>,
    Ghost(max_fin): Ghost<int>,
) -> (new_max: Ghost<int>)
    requires
        grid.wf(),
        m == grid.model(),
        m.rows * m.cols <= MAX_SEARCH_CELLS,
        nst == 4 * (m.rows * m.cols),
        forall|t: int| 0 <= t < inits.len() ==> open_cell(m, (#[trigger] inits[t]).0),
        old(dist)@.len() == nst,
        old(fin)@.len() == nst,
        *old(fin_count) == count_true(old(fin)@),
        *old(fin_count) < usize::MAX,
        forall|i: int|
            0 <= i < nst ==> ((#[trigger] old(fin)@[i]) <==> old(dist)@[i] is Some),
        forall|i: int|
            0 <= i < nst && (#[trigger] old(dist)@[i]) is Some ==> old(dist)@[i].unwrap() <= 1001
                * (*old(fin_count) as int),
        forall|s: Node|
            m.in_bounds(s.0.0 as int, s.0.1 as int) && #[trigger] old(fin)@[sidx(m, s)]
                ==> open_cell(m, s.0) && old(dist)@[sidx(m, s)] is Some && realizable(
                m,
                rev,
                inits,
                s,
                old(dist)@[sidx(m, s)].unwrap() as nat,
            ) && old(dist)@[sidx(m, s)].unwrap() <= 1001 * (*old(fin_count) as int),
        forall|qi: int|
            0 <= qi < old(queue)@.len() ==> {
                let e = #[trigger] old(queue)@[qi];
                open_cell(m, e.1) && realizable(m, rev, inits, (e.1, e.2), e.0 as nat) && e.0
                    <= 1001 * (*old(fin_count) as int + 1)
            },
        0 <= max_fin,
        forall|s: Node|
            m.in_bounds(s.0.0 as int, s.0.1 as int) && #[trigger] old(fin)@[sidx(m, s)]
                ==> old(dist)@[sidx(m, s)].unwrap() <= max_fin,
        forall|qi: int| 0 <= qi < oldq.len() ==> (#[trigger] oldq[qi]).0 >= max_fin,
        forall|t: int|
            0 <= t < inits.len() ==> {
                let ii = sidx(m, #[trigger] inits[t]);
                (0 <= ii < old(fin)@.len() && old(fin)@[ii] && old(dist)@[ii] == Some(0u64))
                    || has_entry(oldq, inits[t], 0)
            },
        forall|s1: Node, s2: Node|
            m.in_bounds(s1.0.0 as int, s1.0.1 as int) && old(fin)@[sidx(m, s1)] && #[trigger] succ(
                m,
                rev,
                s1,
                s2,
            ) ==> {
                let bound = old(dist)@[sidx(m, s1)].unwrap() + succ_w(rev, s1, s2);
                (old(fin)@[sidx(m, s2)] && old(dist)@[sidx(m, s2)].unwrap() <= bound)
                    || has_entry(oldq, s2, bound)
            },
        0 <= mi < oldq.len(),
        oldq[mi].0 == c && oldq[mi].1 == p && oldq[mi].2 == d,
        old(queue)@ == oldq.remove(mi),
        forall|t: int| 0 <= t < oldq.len() ==> c <= (#[trigger] oldq[t]).0,
        open_cell(m, p),
        realizable(m, rev, inits, (p, d), c as nat),
        c <= 1001 * (*old(fin_count) as int + 1),
        m.in_bounds(p.0 as int, p.1 as int),
        si as int == sidx(m, (p, d)),
        0 <= si < nst,
        !old(fin)@[si as int],
    ensures
        final(dist)@.len() == nst,
        final(fin)@.len() == nst,
        *final(fin_count) == count_true(final(fin)@),
        *final(fin_count) == *old(fin_count) + 1,
        count_true(final(fin)@) <= nst,
        forall|i: int|
            0 <= i < nst ==> ((#[trigger] final(fin)@[i]) <==> final(dist)@[i] is Some),
        forall|i: int|
            0 <= i < nst && (#[trigger] final(dist)@[i]) is Some ==> final(dist)@[i].unwrap()
                <= 1001 * (*final(fin_count) as int),
        forall|s: Node|
            m.in_bounds(s.0.0 as int, s.0.1 as int) && #[trigger] final(fin)@[sidx(m, s)]
                ==> open_cell(m, s.0) && final(dist)@[sidx(m, s)] is Some && realizable(
                m,
                rev,
                inits,
                s,
                final(dist)@[sidx(m, s)].unwrap() as nat,
            ) && final(dist)@[sidx(m, s)].unwrap() <= 1001 * (*final(fin_count) as int),
        forall|qi: int|
            0 <= qi < final(queue)@.len() ==> {
                let e = #[trigger] final(queue)@[qi];
                open_cell(m, e.1) && realizable(m, rev, inits, (e.1, e.2), e.0 as nat) && e.0
                    <= 1001 * (*final(fin_count) as int + 1)
            },
        new_max@ == c as int,
        forall|s: Node|
            m.in_bounds(s.0.0 as int, s.0.1 as int) && #[trigger] final(fin)@[sidx(m, s)]
                ==> final(dist)@[sidx(m, s)].unwrap() <= new_max@,
        forall|qi: int|
            0 <= qi < final(queue)@.len() ==> (#[trigger] final(queue)@[qi]).0 >= new_max@,
        forall|t: int|
            0 <= t < inits.len() ==> {
                let ii = sidx(m, #[trigger] inits[t]);
                (0 <= ii < final(fin)@.len() && final(fin)@[ii] && final(dist)@[ii] == Some(0u64))
                    || has_entry(final(queue)@, inits[t], 0)
            },
        forall|s1: Node, s2: Node|
            m.in_bounds(s1.0.0 as int, s1.0.1 as int) && final(fin)@[sidx(m, s1)] && #[trigger] succ(
                m,
                rev,
                s1,
                s2,
            ) ==> {
                let bound = final(dist)@[sidx(m, s1)].unwrap() + succ_w(rev, s1, s2);
                (final(fin)@[sidx(m, s2)] && final(dist)@[sidx(m, s2)].unwrap() <= bound)
                    || has_entry(final(queue)@, s2, bound)
            },
        final(queue)@.len() <= old(queue)@.len() + 4,
{
            let ghost old_dist = dist@;
            let ghost old_fin = fin@;
            let ghost old_count = *fin_count as int;
            dist.set(si, Some(c));
            fin.set(si, true);
            proof {
                lemma_count_true_update(old_fin, si as int);
            }
            *fin_count = *fin_count + 1;
            proof {
                lemma_count_true_bound(fin@);
                // the popped entry was the cheapest one
                assert(forall|t: int| 0 <= t < oldq.len() ==> c <= (#[trigger] oldq[t]).0);
                // a state whose index is `si` is the popped state
                assert forall|s: Node|
                    m.in_bounds(s.0.0 as int, s.0.1 as int) && sidx(m, s) == si as int implies s
                    == (p, d) by {
                    if s != (p, d) {
                        lemma_sidx_injective(m, s, (p, d));
                    }
                };
                assert(c <= 1001 * (*fin_count));
                
                assert(c <= 1001 * (nst + 1)) by (nonlinear_arith)
                    requires
                        c <= 1001 * (old_count + 1),
                        old_count <= nst,
                ;
                assert(1001 * (nst + 1) <= 1001 * (4 * 0x0100_0000 + 1)) by (nonlinear_arith)
                    requires
                        nst <= 4 * 0x0100_0000,
                ;
                assert(c <= u64::MAX - 1001);
            }
            let ghost midq = queue@;
            // expand the up-to-three legal edges out of the popped state
            if !rev {
                try_push_forward(grid, queue, p, d, c, Direction::Up, Ghost(m), Ghost(inits));
                try_push_forward(grid, queue, p, d, c, Direction::Right, Ghost(m), Ghost(inits));
                try_push_forward(grid, queue, p, d, c, Direction::Down, Ghost(m), Ghost(inits));
                try_push_forward(grid, queue, p, d, c, Direction::Left, Ghost(m), Ghost(inits));
            } else {
                try_push_backward(grid, queue, p, d, c, Direction::Up, Ghost(m), Ghost(inits));
                try_push_backward(grid, queue, p, d, c, Direction::Right, Ghost(m), Ghost(inits));
                try_push_backward(grid, queue, p, d, c, Direction::Down, Ghost(m), Ghost(inits));
                try_push_backward(grid, queue, p, d, c, Direction::Left, Ghost(m), Ghost(inits));
            }
            proof {
                // old entries survive at their old positions
                assert(forall|qi: int|
                    0 <= qi < midq.len() ==> #[trigger] queue@[qi] == midq[qi]);
                assert(forall|qi: int|
                    0 <= qi < midq.len() ==> #[trigger] midq[qi] == oldq[if qi < mi {
                        qi
                    } else {
                        qi + 1
                    }]);
                // every edge out of the popped state now has a frontier entry
                assert forall|s2: Node| #[trigger] succ(m, rev, (p, d), s2) implies has_entry(
                    queue@,
                    s2,
                    c + succ_w(rev, (p, d), s2),
                ) by {
                    assert(s2.1 == Direction::Up || s2.1 == Direction::Right || s2.1
                        == Direction::Down || s2.1 == Direction::Left);
                };
                // the frontier invariant and the closure facts
                assert forall|t: int| 0 <= t < inits.len() implies {
                    let ii = sidx(m, #[trigger] inits[t]);
                    (0 <= ii < fin@.len() && fin@[ii] && dist@[ii] == Some(0u64)) || has_entry(
                        queue@,
                        inits[t],
                        0,
                    )
                } by {
                    let ii = sidx(m, inits[t]);
                    assert(open_cell(m, inits[t].0));
                    lemma_sidx_bounds(m, inits[t]);
                    if !(old_fin[ii] && old_dist[ii] == Some(0u64)) {
                        lemma_has_entry_remove(oldq, mi, inits[t], 0);
                        if (oldq[mi].1, oldq[mi].2) == inits[t] && oldq[mi].0
                            <= 0 {
                            assert(inits[t] == (p, d));
                            assert(c == 0);
                            assert(ii == si as int);
                            assert(fin@[ii] && dist@[ii] == Some(0u64));
                        } else {
                            let qi = choose|qi: int|
                                0 <= qi < oldq.remove(mi).len() && ((#[trigger] oldq.remove(
                                    mi,
                                )[qi]).1, oldq.remove(mi)[qi].2) == inits[t] && oldq.remove(
                                    mi,
                                )[qi].0 <= 0;
                            assert(midq[qi] == oldq.remove(mi)[qi]);
                            assert(queue@[qi] == midq[qi]);
                            assert(has_entry(queue@, inits[t], 0));
                        }
                    } else {
                        assert(ii != si as int);
                    }
                };
                assert forall|s1: Node, s2: Node|
                    m.in_bounds(s1.0.0 as int, s1.0.1 as int) && fin@[sidx(m, s1)]
                        && #[trigger] succ(m, rev, s1, s2) implies {
                    let bound = dist@[sidx(m, s1)].unwrap() + succ_w(rev, s1, s2);
                    (fin@[sidx(m, s2)] && dist@[sidx(m, s2)].unwrap() <= bound) || has_entry(
                        queue@,
                        s2,
                        bound,
                    )
                } by {
                    let bound = dist@[sidx(m, s1)].unwrap() + succ_w(rev, s1, s2);
                    assert(open_cell(m, s2.0));
                    assert(m.in_bounds(s2.0.0 as int, s2.0.1 as int));
                    lemma_sidx_bounds(m, s1);
                    lemma_sidx_bounds(m, s2);
                    if s1 == (p, d) {
                        assert(dist@[sidx(m, s1)].unwrap() == c);
                        assert(has_entry(queue@, s2, c + succ_w(rev, s1, s2)));
                    } else {
                        assert(sidx(m, s1) != si as int);
                        assert(old_fin[sidx(m, s1)]);
                        let old_bound = old_dist[sidx(m, s1)].unwrap() + succ_w(rev, s1, s2);
                        assert(old_bound == bound);
                        if old_fin[sidx(m, s2)] && old_dist[sidx(m, s2)].unwrap() <= old_bound {
                            assert(sidx(m, s2) != si as int);
                            assert(fin@[sidx(m, s2)] && dist@[sidx(m, s2)].unwrap() <= bound);
                        } else {
                            lemma_has_entry_remove(oldq, mi, s2, old_bound);
                            if (oldq[mi].1, oldq[mi].2) == s2 && oldq[mi].0
                                <= old_bound {
                                assert(s2 == (p, d));
                                assert(fin@[sidx(m, s2)] && dist@[sidx(m, s2)].unwrap() <= bound);
                            } else {
                                let qi = choose|qi: int|
                                    0 <= qi < oldq.remove(mi).len() && ((#[trigger] oldq.remove(
                                        mi,
                                    )[qi]).1, oldq.remove(mi)[qi].2) == s2 && oldq.remove(
                                        mi,
                                    )[qi].0 <= old_bound;
                                assert(midq[qi] == oldq.remove(mi)[qi]);
                                assert(queue@[qi] == midq[qi]);
                                assert(has_entry(queue@, s2, bound));
                            }
                        }
                    }
                };
                assert forall|s: Node|
                    m.in_bounds(s.0.0 as int, s.0.1 as int) && #[trigger] fin@[sidx(m, s)] implies
                    open_cell(m, s.0) && dist@[sidx(m, s)] is Some && realizable(
                    m,
                    rev,
                    inits,
                    s,
                    dist@[sidx(m, s)].unwrap() as nat,
                ) && dist@[sidx(m, s)].unwrap() <= 1001 * (*fin_count as int) && dist@[sidx(
                    m,
                    s,
                )].unwrap() <= c by {
                    lemma_sidx_bounds(m, s);
                    if sidx(m, s) != si as int {
                        assert(old_fin[sidx(m, s)]);
                        assert(old_dist[sidx(m, s)].unwrap() <= max_fin);
                        assert(max_fin <= oldq[mi].0);
                    }
                };
            }
    Ghost(c as int)
}

/// Runs the cost-ordered state search from `inits` over the edge relation
/// oriented by `rev`, and returns the finished distance table: an entry is
/// `Some(c)` exactly when `c` is the least cost of a route joining the
/// state with one of `inits`, and `None` exactly when no route joins them.
#[verifier::rlimit(100)]
pub fn dijkstra_dists(grid: &Grid<char>, inits: &Vec<(Point, Direction)>, rev: bool) -> (dist: Vec<
    Option<u64>,
>)
    requires
        grid.wf(),
        grid.model().rows * grid.model().cols <= MAX_SEARCH_CELLS,
        forall|t: int|
            0 <= t < inits@.len() ==> open_cell(grid.model(), (#[trigger] inits@[t]).0),
    ensures
        dist@.len() == 4 * (grid.model().rows * grid.model().cols),
        forall|i: int|
            0 <= i < dist@.len() && (#[trigger] dist@[i]) is Some ==> dist@[i].unwrap() <= 1001 * (
            4 * (grid.model().rows * grid.model().cols)),
        forall|s: Node|
            grid.model().in_bounds(s.0.0 as int, s.0.1 as int) ==> match #[trigger] dist_at(
                grid.model(),
                dist@,
                s,
            ) {
                Some(c) => realizable(grid.model(), rev, inits@, s, c as nat) && (forall|k: nat|
                    #[trigger] realizable(grid.model(), rev, inits@, s, k) ==> k >= c as nat),
                None => forall|k: nat| !(#[trigger] realizable(grid.model(), rev, inits@, s, k)),
            },
{
    let ghost m = grid.model();
    let n_cells: usize = grid.rows * grid.columns;
    let n_states: usize = 4 * n_cells;
    let mut dist: Vec<Option<u64>> = Vec::new();
    while dist.len() < n_states
        invariant
            dist@.len() <= n_states,
            forall|i: int| 0 <= i < dist@.len() ==> (#[trigger] dist@[i]) is None,
        decreases n_states - dist@.len(),
    {
        dist.push(None);
    }
    let mut fin: Vec<bool> = Vec::new();
    while fin.len() < n_states
        invariant
            fin@.len() <= n_states,
            forall|i: int| 0 <= i < fin@.len() ==> !(#[trigger] fin@[i]),
            count_true(fin@) == 0,
        decreases n_states - fin@.len(),
    {
        proof {
            lemma_count_true_push(fin@, false);
        }
        fin.push(false);
    }
    let mut queue: Vec<(u64, Point, Direction)> = Vec::new();
    let mut ti: usize = 0;
    while ti < inits.len()
        invariant
            grid.wf(),
            m == grid.model(),
            forall|t: int|
                0 <= t < inits@.len() ==> open_cell(m, (#[trigger] inits@[t]).0),
            0 <= ti <= inits@.len(),
            queue@.len() == ti,
            forall|qi: int|
                0 <= qi < queue@.len() ==> (#[trigger] queue@[qi]) == (
                    0u64,
                    inits@[qi].0,
                    inits@[qi].1,
                ),
        decreases inits@.len() - ti,
    {
        let (p0, d0) = inits[ti];
        queue.push((0u64, p0, d0));
        ti = ti + 1;
    }
    proof {
        assert forall|qi: int| 0 <= qi < queue@.len() implies {
            let e = #[trigger] queue@[qi];
            let s = (e.1, e.2);
            open_cell(m, s.0) && realizable(m, rev, inits@, s, e.0 as nat) && e.0 <= 1001 * (
            count_true(fin@) + 1)
        } by {
            lemma_realizable_self(m, rev, inits@, qi);
            assert((queue@[qi].1, queue@[qi].2) == inits@[qi]);
        };
        assert forall|t: int| 0 <= t < inits@.len() implies {
            let ii = sidx(m, #[trigger] inits@[t]);
            (0 <= ii < fin@.len() && fin@[ii] && dist@[ii] == Some(0u64)) || has_entry(
                queue@,
                inits@[t],
                0,
            )
        } by {
            assert((queue@[t].1, queue@[t].2) == inits@[t] && queue@[t].0 <= 0);
        };
        assert forall|s: Node| m.in_bounds(s.0.0 as int, s.0.1 as int) implies !fin@[sidx(
            m,
            s,
        )] by {
            lemma_sidx_bounds(m, s);
        };
    }
    let mut fin_count: usize = 0;
    let ghost mut max_fin: int = 0;
    while queue.len() > 0
        invariant
            grid.wf(),
            m == grid.model(),
            m.rows * m.cols <= MAX_SEARCH_CELLS,
            forall|t: int|
                0 <= t < inits@.len() ==> open_cell(m, (#[trigger] inits@[t]).0),
            n_cells == m.rows * m.cols,
            n_states == 4 * n_cells,
            dist@.len() == n_states,
            fin@.len() == n_states,
            fin_count == count_true(fin@),
            fin_count <= n_states,
            forall|i: int| 0 <= i < n_states ==> ((#[trigger] fin@[i]) <==> dist@[i] is Some),
            forall|i: int|
                0 <= i < n_states && (#[trigger] dist@[i]) is Some ==> dist@[i].unwrap() <= 1001
                    * (fin_count as int),
            forall|s: Node|
                m.in_bounds(s.0.0 as int, s.0.1 as int) && #[trigger] fin@[sidx(m, s)]
                    ==> open_cell(m, s.0) && dist@[sidx(m, s)] is Some && realizable(
                    m,
                    rev,
                    inits@,
                    s,
                    dist@[sidx(m, s)].unwrap() as nat,
                ) && dist@[sidx(m, s)].unwrap() <= 1001 * fin_count,
            forall|qi: int|
                0 <= qi < queue@.len() ==> {
                    let e = #[trigger] queue@[qi];
                    let s = (e.1, e.2);
                    open_cell(m, s.0) && realizable(m, rev, inits@, s, e.0 as nat) && e.0 <= 1001
                        * (fin_count + 1)
                },
            0 <= max_fin,
            forall|s: Node|
                m.in_bounds(s.0.0 as int, s.0.1 as int) && #[trigger] fin@[sidx(m, s)]
                    ==> dist@[sidx(m, s)].unwrap() <= max_fin,
            forall|qi: int| 0 <= qi < queue@.len() ==> (#[trigger] queue@[qi]).0 >= max_fin,
            forall|t: int|
                0 <= t < inits@.len() ==> {
                    let ii = sidx(m, #[trigger] inits@[t]);
                    (0 <= ii < fin@.len() && fin@[ii] && dist@[ii] == Some(0u64)) || has_entry(
                        queue@,
                        inits@[t],
                        0,
                    )
                },
            forall|s1: Node, s2: Node|
                m.in_bounds(s1.0.0 as int, s1.0.1 as int) && fin@[sidx(m, s1)] && #[trigger] succ(
                    m,
                    rev,
                    s1,
                    s2,
                ) ==> {
                    let bound = dist@[sidx(m, s1)].unwrap() + succ_w(rev, s1, s2);
                    (fin@[sidx(m, s2)] && dist@[sidx(m, s2)].unwrap() <= bound) || has_entry(
                        queue@,
                        s2,
                        bound,
                    )
                },
        decreases 5 * (n_states - fin_count) + queue@.len(),
    {
        let mut mi: usize = 0;
        let mut k: usize = 1;
        while k < queue.len()
            invariant
                queue@.len() > 0,
                0 <= mi < queue@.len(),
                1 <= k <= queue@.len(),
                forall|t: int| 0 <= t < k ==> queue@[mi as int].0 <= (#[trigger] queue@[t]).0,
            decreases queue@.len() - k,
        {
            if queue[k].0 < queue[mi].0 {
                mi = k;
            }
            k = k + 1;
        }
        let ghost oldq = queue@;
        let entry = queue.remove(mi);
        let c = entry.0;
        let p = entry.1;
        let d = entry.2;
        proof {
            assert(open_cell(m, p));
            assert(m.in_bounds(p.0 as int, p.1 as int));
        }
        let si = state_index(grid, p, d);
        if fin[si] {
            proof {
                assert(dist@[sidx(m, (p, d))].unwrap() <= max_fin <= c);
                assert forall|t: int| 0 <= t < inits@.len() implies {
                    let ii = sidx(m, #[trigger] inits@[t]);
                    (0 <= ii < fin@.len() && fin@[ii] && dist@[ii] == Some(0u64)) || has_entry(
                        queue@,
                        inits@[t],
                        0,
                    )
                } by {
                    let ii = sidx(m, inits@[t]);
                    if !(0 <= ii < fin@.len() && fin@[ii] && dist@[ii] == Some(0u64)) {
                        lemma_has_entry_remove(oldq, mi as int, inits@[t], 0);
                        if (oldq[mi as int].1, oldq[mi as int].2) == inits@[t] && oldq[mi as int].0
                            <= 0 {
                            assert(fin@[sidx(m, (p, d))]);
                            assert(dist@[sidx(m, (p, d))].unwrap() <= 0);
                            assert(dist@[ii] == Some(0u64));
                            assert(false);
                        }
                    }
                };
                assert forall|s1: Node, s2: Node|
                    m.in_bounds(s1.0.0 as int, s1.0.1 as int) && fin@[sidx(m, s1)]
                        && #[trigger] succ(m, rev, s1, s2) implies {
                    let bound = dist@[sidx(m, s1)].unwrap() + succ_w(rev, s1, s2);
                    (fin@[sidx(m, s2)] && dist@[sidx(m, s2)].unwrap() <= bound) || has_entry(
                        queue@,
                        s2,
                        bound,
                    )
                } by {
                    let bound = dist@[sidx(m, s1)].unwrap() + succ_w(rev, s1, s2);
                    if !(fin@[sidx(m, s2)] && dist@[sidx(m, s2)].unwrap() <= bound) {
                        lemma_has_entry_remove(oldq, mi as int, s2, bound);
                        if (oldq[mi as int].1, oldq[mi as int].2) == s2 && oldq[mi as int].0
                            <= bound {
                            assert(s2 == (p, d));
                            assert(fin@[sidx(m, s2)]);
                            assert(dist@[sidx(m, s2)].unwrap() <= c <= bound);
                            assert(false);
                        }
                    }
                };
            }
        } else {
            proof {
                assert(forall|t: int| 0 <= t < oldq.len() ==> c <= (#[trigger] oldq[t]).0);
            }
            let Ghost(new_max) = finalize_and_expand(
                grid,
                &mut queue,
                &mut dist,
                &mut fin,
                &mut fin_count,
                rev,
                c,
                p,
                d,
                si,
                Ghost(m),
                Ghost(inits@),
                Ghost(oldq),
                Ghost(mi as int),
                Ghost(n_states as int),
                Ghost(max_fin),
            );
            proof {
                max_fin = new_max;
            }
        }
    }
    proof {
        assert(queue@.len() == 0);
        assert forall|i: int|
            0 <= i < dist@.len() && (#[trigger] dist@[i]) is Some implies dist@[i].unwrap()
            <= 1001 * (4 * (m.rows * m.cols)) by {
            assert(dist@[i].unwrap() <= 1001 * (fin_count as int));
            assert(1001 * (fin_count as int) <= 1001 * (n_states as int)) by (nonlinear_arith)
                requires
                    fin_count <= n_states,
            ;
        };
        assert forall|t: int| 0 <= t < inits@.len() implies m.in_bounds(
            (#[trigger] inits@[t]).0.0 as int,
            inits@[t].0.1 as int,
        ) && fin@[sidx(m, inits@[t])] && dist@[sidx(m, inits@[t])] == Some(0u64) by {
            assert(open_cell(m, inits@[t].0));
            assert(!has_entry(queue@, inits@[t], 0));
        };
        assert forall|s1: Node, s2: Node|
            m.in_bounds(s1.0.0 as int, s1.0.1 as int) && fin@[sidx(m, s1)] && open_cell(m, s1.0)
                && #[trigger] succ(m, rev, s1, s2) implies fin@[sidx(m, s2)] && dist@[sidx(
            m,
            s2,
        )] is Some && dist@[sidx(m, s2)].unwrap() <= dist@[sidx(m, s1)].unwrap() + succ_w(
            rev,
            s1,
            s2,
        ) by {
            let bound = dist@[sidx(m, s1)].unwrap() + succ_w(rev, s1, s2);
            assert(!has_entry(queue@, s2, bound));
            assert(open_cell(m, s2.0));
            assert(m.in_bounds(s2.0.0 as int, s2.0.1 as int));
        };
        assert forall|s1: Node|
            m.in_bounds(s1.0.0 as int, s1.0.1 as int) && #[trigger] fin@[sidx(m, s1)] implies dist@[sidx(
            m,
            s1,
        )] is Some by {
            lemma_sidx_bounds(m, s1);
        };
        assert forall|s: Node|
            m.in_bounds(s.0.0 as int, s.0.1 as int) implies match dist_at(m, dist@, s) {
            Some(c) => realizable(m, rev, inits@, s, c as nat) && (forall|k: nat|
                #[trigger] realizable(m, rev, inits@, s, k) ==> k >= c as nat),
            None => forall|k: nat| !(#[trigger] realizable(m, rev, inits@, s, k)),
        } by {
            lemma_sidx_bounds(m, s);
            match dist_at(m, dist@, s) {
                Some(c) => {
                    assert(fin@[sidx(m, s)]);
                    assert(realizable(m, rev, inits@, s, c as nat));
                    assert forall|k: nat| #[trigger] realizable(m, rev, inits@, s, k) implies k
                        >= c as nat by {
                        let t = choose|t: int|
                            0 <= t < inits@.len() && (if rev {
                                reaches(m, s, #[trigger] inits@[t], k)
                            } else {
                                reaches(m, inits@[t], s, k)
                            });
                        if rev {
                            let rt = choose|rt: Seq<Node>|
                                #[trigger] legal_route(m, rt) && rt.first() == s && rt.last()
                                    == inits@[t] && route_cost(rt) == k;
                            lemma_route_bound(m, rev, inits@, dist@, fin@, rt);
                        } else {
                            let rt = choose|rt: Seq<Node>|
                                #[trigger] legal_route(m, rt) && rt.first() == inits@[t]
                                    && rt.last() == s && route_cost(rt) == k;
                            lemma_route_bound(m, rev, inits@, dist@, fin@, rt);
                        }
                    };
                }
                None => {
                    assert(!fin@[sidx(m, s)]);
                    assert forall|k: nat| !(#[trigger] realizable(m, rev, inits@, s, k)) by {
                        if realizable(m, rev, inits@, s, k) {
                            let t = choose|t: int|
                                0 <= t < inits@.len() && (if rev {
                                    reaches(m, s, #[trigger] inits@[t], k)
                                } else {
                                    reaches(m, inits@[t], s, k)
                                });
                            if rev {
                                let rt = choose|rt: Seq<Node>|
                                    #[trigger] legal_route(m, rt) && rt.first() == s && rt.last()
                                        == inits@[t] && route_cost(rt) == k;
                                lemma_route_bound(m, rev, inits@, dist@, fin@, rt);
                            } else {
                                let rt = choose|rt: Seq<Node>|
                                    #[trigger] legal_route(m, rt) && rt.first() == inits@[t]
                                        && rt.last() == s && route_cost(rt) == k;
                                lemma_route_bound(m, rev, inits@, dist@, fin@, rt);
                            }
                            assert(false);
                        }
                    };
                }
            }
        };
    }
    dist
}

/// How a maze query can fail.
#[derive(Debug, Copy, Clone, PartialEq, Eq, Structural)]
pub enum MazeError {
    /// The input rows do not all share one length.
    Ragged,
    /// No cell holds the start marker.
    NoStart,
    /// No cell holds the end marker.
    NoEnd,
    /// The grid exceeds the search's size limit.
    TooLarge,
    /// No legal route joins the start and the end.
    NoPath,
}

/// The position of the first cell holding `x`, in row-major order.
pub open spec fn marker_cell(mm: GridModel<char>, x: char) -> Option<Point> {
    match crate::grid::find_first(mm.cells, x) {
        Some(k) => Some((((k / mm.cols) as usize, (k % mm.cols) as usize))),
        None => None,
    }
}

/// A found marker names an in-range cell that holds the marker character.
pub proof fn lemma_marker_cell(mm: GridModel<char>, x: char)
    requires
        mm.wf(),
        mm.rows <= usize::MAX,
        mm.cols <= usize::MAX,
    ensures
        marker_cell(mm, x) matches Some(p) ==> mm.get(p) == Some(x),
{
    crate::grid::lemma_find_first_props(mm.cells, x);
    if marker_cell(mm, x) is Some {
        let k = crate::grid::find_first(mm.cells, x).unwrap();
        assert(0 <= k < mm.cells.len());
        assert(mm.cols > 0) by {
            if mm.cols <= 0 {
                assert(mm.rows * 0 == 0) by (nonlinear_arith);
            }
        };
        vstd::arithmetic::div_mod::lemma_fundamental_div_mod(k, mm.cols);
        vstd::arithmetic::div_mod::lemma_mod_bound(k, mm.cols);
        vstd::arithmetic::div_mod::lemma_div_pos_is_pos(k, mm.cols);
        let r = k / mm.cols;
        let c = k % mm.cols;
        assert(r < mm.rows) by {
            if r >= mm.rows {
                assert(k >= mm.rows * mm.cols) by (nonlinear_arith)
                    requires
                        k == mm.cols * r + c,
                        0 <= c,
                        r >= mm.rows,
                        mm.cols > 0,
                ;
            }
        };
        assert(r * mm.cols + c == k) by (nonlinear_arith)
            requires
                k == mm.cols * r + c,
        ;
        let p = ((r as usize), (c as usize));
        assert(p.0 as int == r && p.1 as int == c);
        assert(mm.in_bounds(r, c));
        assert(mm.cells[p.0 * mm.cols + p.1] == x);
        assert(mm.get(p) == Some(x));
    }
}

/// Whether some route of cost `k` leads from `s` to the end cell `e`,
/// whatever direction it arrives in.
pub open spec fn to_end(mm: GridModel<char>, s: Node, e: Point, k: nat) -> bool {
    exists|de: Direction| reaches(mm, s, (e, de), k)
}

/// Whether `k` is the least cost of any route from `s0` to the end cell.
pub open spec fn is_min_total(mm: GridModel<char>, s0: Node, e: Point, k: nat) -> bool {
    to_end(mm, s0, e, k) && forall|j: nat| #[trigger] to_end(mm, s0, e, j) ==> j >= k
}

/// Reads the maze, finds the start and end markers, and checks the size
/// limit.
pub fn parse(input: &str) -> (res: Result<(Grid<char>, Point, Point), MazeError>)
    ensures
        res matches Err(MazeError::Ragged) <==> ragged(lines_of(input@)),
        !ragged(lines_of(input@)) ==> {
            let mm = crate::regions::spec_text_model(input@);
            &&& (res matches Err(MazeError::NoStart) <==> marker_cell(mm, 'S') is None)
            &&& (marker_cell(mm, 'S') is Some ==> (res matches Err(MazeError::NoEnd) <==> marker_cell(
                mm,
                'E',
            ) is None))
            &&& (marker_cell(mm, 'S') is Some && marker_cell(mm, 'E') is Some ==> (res matches Err(
                MazeError::TooLarge,
            ) <==> mm.rows * mm.cols > MAX_SEARCH_CELLS))
            &&& (res matches Ok(gse) ==> gse.0.wf() && gse.0.model() == mm && marker_cell(mm, 'S')
                == Some(gse.1) && marker_cell(mm, 'E') == Some(gse.2) && mm.rows * mm.cols
                <= MAX_SEARCH_CELLS)
            &&& (res is Ok <==> marker_cell(mm, 'S') is Some && marker_cell(mm, 'E') is Some
                && mm.rows * mm.cols <= MAX_SEARCH_CELLS)
        },
{
    let grid = match crate::regions::parse(input) {
        Ok(g) => g,
        Err(_) => {
            return Err(MazeError::Ragged);
        }
    };
    let start = match grid.search('S') {
        Some(p) => p,
        None => {
            return Err(MazeError::NoStart);
        }
    };
    let end = match grid.search('E') {
        Some(p) => p,
        None => {
            return Err(MazeError::NoEnd);
        }
    };
    proof {
        assert(grid.s.len() == grid.s@.len());
    }
    if grid.columns > 0 && grid.rows > MAX_SEARCH_CELLS / grid.columns {
        proof {
            let mm = grid.model();
            vstd::arithmetic::div_mod::lemma_fundamental_div_mod(
                MAX_SEARCH_CELLS as int,
                grid.columns as int,
            );
            vstd::arithmetic::div_mod::lemma_mod_bound(MAX_SEARCH_CELLS as int, grid.columns as int);
            assert(mm.rows * mm.cols > MAX_SEARCH_CELLS) by (nonlinear_arith)
                requires
                    mm.rows > (MAX_SEARCH_CELLS as int) / mm.cols,
                    mm.cols > 0,
                    (MAX_SEARCH_CELLS as int) == mm.cols * ((MAX_SEARCH_CELLS as int) / mm.cols) + (
                    MAX_SEARCH_CELLS as int) % mm.cols,
                    0 <= (MAX_SEARCH_CELLS as int) % mm.cols < mm.cols,
            ;
        }
        return Err(MazeError::TooLarge);
    }
    proof {
        let mm = grid.model();
        assert(mm.rows * mm.cols == grid.s@.len());
        if grid.columns > 0 {
            assert(grid.rows <= MAX_SEARCH_CELLS / grid.columns);
            vstd::arithmetic::div_mod::lemma_fundamental_div_mod(MAX_SEARCH_CELLS as int, grid.columns as int);
            vstd::arithmetic::div_mod::lemma_mod_bound(MAX_SEARCH_CELLS as int, grid.columns as int);
            assert(mm.rows * mm.cols <= MAX_SEARCH_CELLS) by (nonlinear_arith)
                requires
                    mm.rows <= (MAX_SEARCH_CELLS as int) / mm.cols,
                    mm.cols > 0,
                    (MAX_SEARCH_CELLS as int) == mm.cols * ((MAX_SEARCH_CELLS as int) / mm.cols) + (
                    MAX_SEARCH_CELLS as int) % mm.cols,
                    (MAX_SEARCH_CELLS as int) % mm.cols >= 0,
            ;
        } else {
            assert(mm.rows * 0 == 0) by (nonlinear_arith);
        }
    }
    Ok((grid, start, end))
}

/// The smaller of two optional costs, treating `None` as absent.
fn merge_cost(a: Option<u64>, b: Option<u64>) -> (r: Option<u64>)
    ensures
        r is None <==> (a is None && b is None),
        r matches Some(v) ==> (a == Some(v) || b == Some(v)) && (a matches Some(x) ==> v <= x) && (
        b matches Some(y) ==> v <= y),
{
    match (a, b) {
        (Some(x), Some(y)) => if x <= y {
            Some(x)
        } else {
            Some(y)
        },
        (Some(x), None) => Some(x),
        (None, y) => y,
    }
}

/// In a search whose only initial state is `s0`, a cost is realizable
/// exactly when a route from `s0` achieves it.
pub proof fn lemma_single_init(m: GridModel<char>, s0: Node, s: Node, k: nat)
    ensures
        realizable(m, false, seq![s0], s, k) <==> reaches(m, s0, s, k),
{
    if reaches(m, s0, s, k) {
        assert(seq![s0][0] == s0);
        assert(realizable(m, false, seq![s0], s, k));
    }
}

/// In a reversed search whose initial states are the four arrivals at `e`,
/// a cost is realizable exactly when a route reaches the end cell at it.
pub proof fn lemma_end_inits(m: GridModel<char>, ends: Seq<Node>, e: Point, s: Node, k: nat)
    requires
        ends == seq![
            ((e, Direction::Up)),
            ((e, Direction::Right)),
            ((e, Direction::Down)),
            ((e, Direction::Left)),
        ],
    ensures
        realizable(m, true, ends, s, k) <==> to_end(m, s, e, k),
{
    if realizable(m, true, ends, s, k) {
        let t = choose|t: int|
            0 <= t < ends.len() && reaches(m, s, #[trigger] ends[t], k);
        assert(ends[t].0 == e);
        assert(reaches(m, s, (e, ends[t].1), k));
    }
    if to_end(m, s, e, k) {
        let de = choose|de: Direction| reaches(m, s, (e, de), k);
        let t: int = dir_index(de);
        assert(ends[t] == (e, de));
        assert(realizable(m, true, ends, s, k));
    }
}

/// The minimal cost of any route from the start state to the end marker:
/// straight moves cost 1 and turning moves cost 1001, with U-turns
/// forbidden and the facing of arrival free.
pub fn part1(input: &str) -> (res: Result<u64, MazeError>)
    ensures
        res matches Err(MazeError::Ragged) <==> ragged(lines_of(input@)),
        !ragged(lines_of(input@)) ==> {
            let mm = crate::regions::spec_text_model(input@);
            &&& (res matches Err(MazeError::NoStart) <==> marker_cell(mm, 'S') is None)
            &&& (marker_cell(mm, 'S') is Some ==> (res matches Err(MazeError::NoEnd) <==> marker_cell(
                mm,
                'E',
            ) is None))
            &&& (marker_cell(mm, 'S') is Some && marker_cell(mm, 'E') is Some ==> (res matches Err(
                MazeError::TooLarge,
            ) <==> mm.rows * mm.cols > MAX_SEARCH_CELLS))
            &&& (marker_cell(mm, 'S') is Some && marker_cell(mm, 'E') is Some && mm.rows * mm.cols
                <= MAX_SEARCH_CELLS ==> {
                let s0 = ((marker_cell(mm, 'S').unwrap(), Direction::Right));
                let e = marker_cell(mm, 'E').unwrap();
                &&& (res matches Ok(c) ==> is_min_total(mm, s0, e, c as nat))
                &&& ((res matches Err(MazeError::NoPath)) <==> (forall|k: nat|
                    !(#[trigger] to_end(mm, s0, e, k))))
            })
        },
{
    let (grid, start, end) = match parse(input) {
        Ok(t) => t,
        Err(e) => {
            return Err(e);
        }
    };
    let ghost m = grid.model();
    let ghost s0: Node = (start, Direction::Right);
    proof {
        assert(grid.s.len() == grid.s@.len());
        lemma_marker_cell(m, 'S');
        lemma_marker_cell(m, 'E');
    }
    let mut inits: Vec<(Point, Direction)> = Vec::new();
    inits.push((start, Direction::Right));
    proof {
        assert(inits@ =~= seq![s0]);
    }
    let dist = dijkstra_dists(&grid, &inits, false);
    let c0 = dist[state_index(&grid, end, Direction::Up)];
    let c1 = dist[state_index(&grid, end, Direction::Right)];
    let c2 = dist[state_index(&grid, end, Direction::Down)];
    let c3 = dist[state_index(&grid, end, Direction::Left)];
    let best = merge_cost(merge_cost(merge_cost(c0, c1), c2), c3);
    proof {
        assert(c0 == dist_at(m, dist@, (end, Direction::Up)));
        assert(c1 == dist_at(m, dist@, (end, Direction::Right)));
        assert(c2 == dist_at(m, dist@, (end, Direction::Down)));
        assert(c3 == dist_at(m, dist@, (end, Direction::Left)));
    }
    match best {
        Some(b) => {
            proof {
                let e = end;
                assert(to_end(m, s0, e, b as nat)) by {
                    assert(exists|dd: Direction| dist_at(m, dist@, (e, dd)) == Some(b)) by {
                        assert(c0 == Some(b) || c1 == Some(b) || c2 == Some(b) || c3 == Some(b));
                        if c0 == Some(b) {
                            assert(dist_at(m, dist@, (e, Direction::Up)) == Some(b));
                        } else if c1 == Some(b) {
                            assert(dist_at(m, dist@, (e, Direction::Right)) == Some(b));
                        } else if c2 == Some(b) {
                            assert(dist_at(m, dist@, (e, Direction::Down)) == Some(b));
                        } else {
                            assert(dist_at(m, dist@, (e, Direction::Left)) == Some(b));
                        }
                    };
                    let dd = choose|dd: Direction| dist_at(m, dist@, (e, dd)) == Some(b);
                    assert(realizable(m, false, inits@, (e, dd), b as nat));
                    lemma_single_init(m, s0, (e, dd), b as nat);
                };
                assert forall|k: nat| #[trigger] to_end(m, s0, e, k) implies k >= b as nat by {
                    let de = choose|de: Direction| reaches(m, s0, (e, de), k);
                    lemma_single_init(m, s0, (e, de), k);
                    assert(realizable(m, false, inits@, (e, de), k));
                    assert(dist_at(m, dist@, (e, de)) is Some);
                    let cde = dist_at(m, dist@, (e, de)).unwrap();
                    assert(cde <= k);
                    assert(b <= cde) by {
                        if de == Direction::Up {
                            assert(c0 == Some(cde));
                        } else if de == Direction::Right {
                            assert(c1 == Some(cde));
                        } else if de == Direction::Down {
                            assert(c2 == Some(cde));
                        } else {
                            assert(c3 == Some(cde));
                        }
                    };
                };
            }
            Ok(b)
        }
        None => {
            proof {
                let e = end;
                assert forall|k: nat| !(#[trigger] to_end(m, s0, e, k)) by {
                    if to_end(m, s0, e, k) {
                        let de = choose|de: Direction| reaches(m, s0, (e, de), k);
                        lemma_single_init(m, s0, (e, de), k);
                        assert(realizable(m, false, inits@, (e, de), k));
                        assert(dist_at(m, dist@, (e, de)) is None);
                        assert(false);
                    }
                };
            }
            Err(MazeError::NoPath)
        }
    }
}

/// Whether `k` is the least cost of any route from `a` to `s`.
pub open spec fn is_min_from(mm: GridModel<char>, a: Node, s: Node, k: nat) -> bool {
    reaches(mm, a, s, k) && forall|j: nat| #[trigger] reaches(mm, a, s, j) ==> j >= k
}

/// Whether `k` is the least cost of any route from `s` to the end cell.
pub open spec fn is_min_back(mm: GridModel<char>, s: Node, e: Point, k: nat) -> bool {
    to_end(mm, s, e, k) && forall|j: nat| #[trigger] to_end(mm, s, e, j) ==> j >= k
}

/// Whether the cell `p` lies on some cost-minimal route: in some facing,
/// the least cost of getting there plus the least cost of going on to the
/// end meets the overall minimum.
pub open spec fn on_best_route(
    mm: GridModel<char>,
    s0: Node,
    e: Point,
    best: nat,
    p: Point,
) -> bool {
    exists|dd: Direction, ka: nat, kb: nat|
        #![trigger is_min_from(mm, s0, (p, dd), ka), is_min_back(mm, (p, dd), e, kb)]
        is_min_from(mm, s0, (p, dd), ka) && is_min_back(mm, (p, dd), e, kb) && ka + kb == best
}

/// How many cells at `(r, c)` and after it in row-major order lie on some
/// cost-minimal route.
pub open spec fn best_cell_count(
    mm: GridModel<char>,
    s0: Node,
    e: Point,
    best: nat,
    r: int,
    c: int,
) -> nat
    decreases mm.rows - r, mm.cols - c
        when 0 <= r && 0 <= c <= mm.cols && mm.wf()
{
    if r >= mm.rows {
        0
    } else if c >= mm.cols {
        best_cell_count(mm, s0, e, best, r + 1, 0)
    } else {
        (if on_best_route(mm, s0, e, best, (r as usize, c as usize)) {
            1nat
        } else {
            0nat
        }) + best_cell_count(mm, s0, e, best, r, c + 1)
    }
}

/// Whether, facing `dd`, the cell `p` meets the overall minimum `best`:
/// the two distance tables both know the state and their costs add to it.
#[verifier::rlimit(30)]
fn dir_on_best(
    grid: &Grid<char>,
    dist_f: &Vec<Option<u64>>,
    dist_b: &Vec<Option<u64>>,
    p: Point,
    dd: Direction,
    best: u64,
    Ghost(m): Ghost<GridModel<char>>,
    Ghost(s0): Ghost<Node>,
    Ghost(e): Ghost<Point>,
) -> (r: bool)
    requires
        grid.wf(),
        m == grid.model(),
        m.rows * m.cols <= MAX_SEARCH_CELLS,
        m.in_bounds(p.0 as int, p.1 as int),
        dist_f@.len() == 4 * (m.rows * m.cols),
        dist_b@.len() == 4 * (m.rows * m.cols),
        forall|s: Node|
            m.in_bounds(s.0.0 as int, s.0.1 as int) ==> match #[trigger] dist_at(m, dist_f@, s) {
                Some(c) => is_min_from(m, s0, s, c as nat),
                None => forall|k: nat| !(#[trigger] reaches(m, s0, s, k)),
            },
        forall|s: Node|
            m.in_bounds(s.0.0 as int, s.0.1 as int) ==> match #[trigger] dist_at(m, dist_b@, s) {
                Some(c) => is_min_back(m, s, e, c as nat),
                None => forall|k: nat| !(#[trigger] to_end(m, s, e, k)),
            },
    ensures
        r == exists|ka: nat, kb: nat|
            #![trigger is_min_from(m, s0, (p, dd), ka), is_min_back(m, (p, dd), e, kb)]
            is_min_from(m, s0, (p, dd), ka) && is_min_back(m, (p, dd), e, kb) && ka + kb
                == best as nat,
{
    let fi = state_index(grid, p, dd);
    let a = dist_f[fi];
    let b = dist_b[fi];
    proof {
        assert(a == dist_at(m, dist_f@, (p, dd)));
        assert(b == dist_at(m, dist_b@, (p, dd)));
    }
    match (a, b) {
        (Some(ka), Some(kb)) => {
            let hit = ka <= best && best - ka == kb;
            proof {
                if hit {
                    assert(is_min_from(m, s0, (p, dd), ka as nat));
                    assert(is_min_back(m, (p, dd), e, kb as nat));
                } else {
                    assert forall|ka2: nat, kb2: nat|
                        !(is_min_from(m, s0, (p, dd), ka2) && is_min_back(m, (p, dd), e, kb2)
                            && ka2 + kb2 == best as nat) by {
                        if is_min_from(m, s0, (p, dd), ka2) && is_min_back(m, (p, dd), e, kb2) {
                            assert(ka2 == ka as nat);
                            assert(kb2 == kb as nat);
                        }
                    };
                }
            }
            hit
        }
        _ => {
            proof {
                assert forall|ka2: nat, kb2: nat|
                    !(is_min_from(m, s0, (p, dd), ka2) && is_min_back(m, (p, dd), e, kb2) && ka2
                        + kb2 == best as nat) by {
                    if is_min_from(m, s0, (p, dd), ka2) && is_min_back(m, (p, dd), e, kb2) {
                        assert(reaches(m, s0, (p, dd), ka2));
                        assert(to_end(m, (p, dd), e, kb2));
                        assert(a is Some && b is Some);
                        assert(false);
                    }
                };
            }
            false
        }
    }
}

/// How many distinct cells lie on any cost-minimal route from the start
/// marker to the end marker.
#[verifier::rlimit(50)]
pub fn part2(input: &str) -> (res: Result<usize, MazeError>)
    ensures
        res matches Err(MazeError::Ragged) <==> ragged(lines_of(input@)),
        !ragged(lines_of(input@)) ==> {
            let mm = crate::regions::spec_text_model(input@);
            &&& (res matches Err(MazeError::NoStart) <==> marker_cell(mm, 'S') is None)
            &&& (marker_cell(mm, 'S') is Some ==> (res matches Err(MazeError::NoEnd) <==> marker_cell(
                mm,
                'E',
            ) is None))
            &&& (marker_cell(mm, 'S') is Some && marker_cell(mm, 'E') is Some ==> (res matches Err(
                MazeError::TooLarge,
            ) <==> mm.rows * mm.cols > MAX_SEARCH_CELLS))
            &&& (marker_cell(mm, 'S') is Some && marker_cell(mm, 'E') is Some && mm.rows * mm.cols
                <= MAX_SEARCH_CELLS ==> {
                let s0 = ((marker_cell(mm, 'S').unwrap(), Direction::Right));
                let e = marker_cell(mm, 'E').unwrap();
                &&& (res matches Ok(v) ==> forall|b: nat|
                    #[trigger] is_min_total(mm, s0, e, b) ==> v == best_cell_count(mm, s0, e, b, 0, 0))
                &&& ((res matches Err(MazeError::NoPath)) <==> (forall|k: nat|
                    !(#[trigger] to_end(mm, s0, e, k))))
            })
        },
{
    let (grid, start, end) = match parse(input) {
        Ok(t) => t,
        Err(e) => {
            return Err(e);
        }
    };
    let ghost m = grid.model();
    let ghost s0: Node = (start, Direction::Right);
    proof {
        assert(grid.s.len() == grid.s@.len());
        lemma_marker_cell(m, 'S');
        lemma_marker_cell(m, 'E');
    }
    let mut inits: Vec<(Point, Direction)> = Vec::new();
    inits.push((start, Direction::Right));
    proof {
        assert(inits@ =~= seq![s0]);
    }
    let dist_f = dijkstra_dists(&grid, &inits, false);
    let mut ends: Vec<(Point, Direction)> = Vec::new();
    ends.push((end, Direction::Up));
    ends.push((end, Direction::Right));
    ends.push((end, Direction::Down));
    ends.push((end, Direction::Left));
    proof {
        assert(ends@ =~= seq![
            ((end, Direction::Up)),
            ((end, Direction::Right)),
            ((end, Direction::Down)),
            ((end, Direction::Left)),
        ]);
    }
    let dist_b = dijkstra_dists(&grid, &ends, true);
    proof {
        assert forall|s: Node|
            m.in_bounds(s.0.0 as int, s.0.1 as int) implies match dist_at(m, dist_f@, s) {
            Some(c) => is_min_from(m, s0, s, c as nat),
            None => forall|k: nat| !(#[trigger] reaches(m, s0, s, k)),
        } by {
            match dist_at(m, dist_f@, s) {
                Some(c) => {
                    lemma_single_init(m, s0, s, c as nat);
                    assert forall|j: nat| #[trigger] reaches(m, s0, s, j) implies j >= c as nat by {
                        lemma_single_init(m, s0, s, j);
                    };
                }
                None => {
                    assert forall|k: nat| !(#[trigger] reaches(m, s0, s, k)) by {
                        if reaches(m, s0, s, k) {
                            lemma_single_init(m, s0, s, k);
                        }
                    };
                }
            }
        };
        assert forall|s: Node|
            m.in_bounds(s.0.0 as int, s.0.1 as int) implies match dist_at(m, dist_b@, s) {
            Some(c) => is_min_back(m, s, end, c as nat),
            None => forall|k: nat| !(#[trigger] to_end(m, s, end, k)),
        } by {
            match dist_at(m, dist_b@, s) {
                Some(c) => {
                    lemma_end_inits(m, ends@, end, s, c as nat);
                    assert forall|j: nat| #[trigger] to_end(m, s, end, j) implies j >= c as nat by {
                        lemma_end_inits(m, ends@, end, s, j);
                    };
                }
                None => {
                    assert forall|k: nat| !(#[trigger] to_end(m, s, end, k)) by {
                        if to_end(m, s, end, k) {
                            lemma_end_inits(m, ends@, end, s, k);
                        }
                    };
                }
            }
        };
    }
    let c0 = dist_f[state_index(&grid, end, Direction::Up)];
    let c1 = dist_f[state_index(&grid, end, Direction::Right)];
    let c2 = dist_f[state_index(&grid, end, Direction::Down)];
    let c3 = dist_f[state_index(&grid, end, Direction::Left)];
    let best = match merge_cost(merge_cost(merge_cost(c0, c1), c2), c3) {
        Some(b) => b,
        None => {
            proof {
                assert(c0 == dist_at(m, dist_f@, (end, Direction::Up)));
                assert(c1 == dist_at(m, dist_f@, (end, Direction::Right)));
                assert(c2 == dist_at(m, dist_f@, (end, Direction::Down)));
                assert(c3 == dist_at(m, dist_f@, (end, Direction::Left)));
                assert forall|k: nat| !(#[trigger] to_end(m, s0, end, k)) by {
                    if to_end(m, s0, end, k) {
                        let de = choose|de: Direction| reaches(m, s0, (end, de), k);
                        assert(dist_at(m, dist_f@, (end, de)) is None);
                        assert(false);
                    }
                };
            }
            return Err(MazeError::NoPath);
        }
    };
    proof {
        assert(c0 == dist_at(m, dist_f@, (end, Direction::Up)));
        assert(c1 == dist_at(m, dist_f@, (end, Direction::Right)));
        assert(c2 == dist_at(m, dist_f@, (end, Direction::Down)));
        assert(c3 == dist_at(m, dist_f@, (end, Direction::Left)));
        assert(is_min_total(m, s0, end, best as nat)) by {
            assert(to_end(m, s0, end, best as nat)) by {
                assert(c0 == Some(best) || c1 == Some(best) || c2 == Some(best) || c3 == Some(
                    best,
                ));
                if c0 == Some(best) {
                    assert(is_min_from(m, s0, (end, Direction::Up), best as nat));
                } else if c1 == Some(best) {
                    assert(is_min_from(m, s0, (end, Direction::Right), best as nat));
                } else if c2 == Some(best) {
                    assert(is_min_from(m, s0, (end, Direction::Down), best as nat));
                } else {
                    assert(is_min_from(m, s0, (end, Direction::Left), best as nat));
                }
            };
            assert forall|k: nat| #[trigger] to_end(m, s0, end, k) implies k >= best as nat by {
                let de = choose|de: Direction| reaches(m, s0, (end, de), k);
                assert(dist_at(m, dist_f@, (end, de)) is Some);
                let cde = dist_at(m, dist_f@, (end, de)).unwrap();
                assert(cde as nat <= k);
                assert(best <= cde) by {
                    if de == Direction::Up {
                        assert(c0 == Some(cde));
                    } else if de == Direction::Right {
                        assert(c1 == Some(cde));
                    } else if de == Direction::Down {
                        assert(c2 == Some(cde));
                    } else {
                        assert(c3 == Some(cde));
                    }
                };
            };
        };
    }
    let mut count: usize = 0;
    let mut r: usize = 0;
    while r < grid.rows
        invariant
            grid.wf(),
            m == grid.model(),
            m.wf(),
            m.rows * m.cols <= MAX_SEARCH_CELLS,
            0 <= r <= grid.rows,
            dist_f@.len() == 4 * (m.rows * m.cols),
            dist_b@.len() == 4 * (m.rows * m.cols),
            forall|s: Node|
                m.in_bounds(s.0.0 as int, s.0.1 as int) ==> match #[trigger] dist_at(
                    m,
                    dist_f@,
                    s,
                ) {
                    Some(c) => is_min_from(m, s0, s, c as nat),
                    None => forall|k: nat| !(#[trigger] reaches(m, s0, s, k)),
                },
            forall|s: Node|
                m.in_bounds(s.0.0 as int, s.0.1 as int) ==> match #[trigger] dist_at(
                    m,
                    dist_b@,
                    s,
                ) {
                    Some(c) => is_min_back(m, s, end, c as nat),
                    None => forall|k: nat| !(#[trigger] to_end(m, s, end, k)),
                },
            count <= r * m.cols,
            count + best_cell_count(m, s0, end, best as nat, r as int, 0) == best_cell_count(
                m,
                s0,
                end,
                best as nat,
                0,
                0,
            ),
        decreases grid.rows - r,
    {
        let mut c: usize = 0;
        while c < grid.columns
            invariant
                grid.wf(),
                m == grid.model(),
                m.wf(),
                m.rows * m.cols <= MAX_SEARCH_CELLS,
                0 <= r < grid.rows,
                0 <= c <= grid.columns,
                dist_f@.len() == 4 * (m.rows * m.cols),
                dist_b@.len() == 4 * (m.rows * m.cols),
                forall|s: Node|
                    m.in_bounds(s.0.0 as int, s.0.1 as int) ==> match #[trigger] dist_at(
                        m,
                        dist_f@,
                        s,
                    ) {
                        Some(cc) => is_min_from(m, s0, s, cc as nat),
                        None => forall|k: nat| !(#[trigger] reaches(m, s0, s, k)),
                    },
                forall|s: Node|
                    m.in_bounds(s.0.0 as int, s.0.1 as int) ==> match #[trigger] dist_at(
                        m,
                        dist_b@,
                        s,
                    ) {
                        Some(cc) => is_min_back(m, s, end, cc as nat),
                        None => forall|k: nat| !(#[trigger] to_end(m, s, end, k)),
                    },
                count <= r * m.cols + c,
                count + best_cell_count(m, s0, end, best as nat, r as int, c as int)
                    == best_cell_count(m, s0, end, best as nat, 0, 0),
            decreases grid.columns - c,
        {
            let p: Point = (r, c);
            let hit_up = dir_on_best(&grid, &dist_f, &dist_b, p, Direction::Up, best, Ghost(m), Ghost(s0), Ghost(end));
            let hit_right = dir_on_best(&grid, &dist_f, &dist_b, p, Direction::Right, best, Ghost(m), Ghost(s0), Ghost(end));
            let hit_down = dir_on_best(&grid, &dist_f, &dist_b, p, Direction::Down, best, Ghost(m), Ghost(s0), Ghost(end));
            let hit_left = dir_on_best(&grid, &dist_f, &dist_b, p, Direction::Left, best, Ghost(m), Ghost(s0), Ghost(end));
            let hit = hit_up || hit_right || hit_down || hit_left;
            proof {
                assert(hit == on_best_route(m, s0, end, best as nat, p)) by {
                    if on_best_route(m, s0, end, best as nat, p) {
                        let (dd, ka, kb) = choose|dd: Direction, ka: nat, kb: nat|
                            #![trigger is_min_from(m, s0, (p, dd), ka), is_min_back(m, (p, dd), end, kb)]
                            is_min_from(m, s0, (p, dd), ka) && is_min_back(m, (p, dd), end, kb)
                                && ka + kb == best as nat;
                        if dd == Direction::Up {
                            assert(hit_up);
                        } else if dd == Direction::Right {
                            assert(hit_right);
                        } else if dd == Direction::Down {
                            assert(hit_down);
                        } else {
                            assert(hit_left);
                        }
                    }
                };
                crate::grid::lemma_row_major_index(m.rows, m.cols, r as int, c as int);
            }
            if hit {
                count = count + 1;
            }
            c = c + 1;
        }
        r = r + 1;
        proof {
            assert(r * m.cols == (r - 1) * m.cols + m.cols) by (nonlinear_arith);
        }
    }
    proof {
        assert forall|b: nat| #[trigger] is_min_total(m, s0, end, b) implies b == best as nat by {
            assert(is_min_total(m, s0, end, best as nat));
        };
    }
    Ok(count)
}

} // verus!
