//! The dense, row-major two-dimensional grid and the four-direction movement
//! model shared by every traversal algorithm in this crate.

use vstd::prelude::*;

verus! {

/// A coordinate pair `(row, column)` addressing one grid cell.
pub type Point = (usize, usize);

/// One of the four axis-aligned movement directions.
#[derive(Debug, Copy, Clone, PartialEq, Eq, Hash, Structural)]
pub enum Direction {
    Up,
    Right,
    Down,
    Left,
}

impl Direction {
    /// The cyclic successor of a direction, rotating 90 degrees clockwise
    /// through Up, Right, Down, Left and back to Up.
    pub fn turn_right(&self) -> (r: Direction)
        ensures
            r == self.spec_turn_right(),
    {
        match self {
            Direction::Up => Direction::Right,
            Direction::Right => Direction::Down,
            Direction::Down => Direction::Left,
            Direction::Left => Direction::Up,
        }
    }

    /// The 180 degree reversal of a direction.
    pub fn opposite(&self) -> (r: Direction)
        ensures
            r == self.spec_opposite(),
    {
        match self {
            Direction::Up => Direction::Down,
            Direction::Right => Direction::Left,
            Direction::Down => Direction::Up,
            Direction::Left => Direction::Right,
        }
    }

    pub open spec fn spec_turn_right(self) -> Direction {
        match self {
            Direction::Up => Direction::Right,
            Direction::Right => Direction::Down,
            Direction::Down => Direction::Left,
            Direction::Left => Direction::Up,
        }
    }

    pub open spec fn spec_opposite(self) -> Direction {
        match self {
            Direction::Up => Direction::Down,
            Direction::Right => Direction::Left,
            Direction::Down => Direction::Up,
            Direction::Left => Direction::Right,
        }
    }
}

/// Four right turns bring a direction back to itself, and reversing a
/// direction twice gives the direction back.
pub proof fn lemma_direction_cycle(d: Direction)
    ensures
        d.spec_turn_right().spec_turn_right().spec_turn_right().spec_turn_right() == d,
        d.spec_opposite().spec_opposite() == d,
{
}

/// The row offset of one step in direction `d`.
pub open spec fn row_step(d: Direction) -> int {
    match d {
        Direction::Up => -1,
        Direction::Right => 0,
        Direction::Down => 1,
        Direction::Left => 0,
    }
}

/// The column offset of one step in direction `d`.
pub open spec fn col_step(d: Direction) -> int {
    match d {
        Direction::Up => 0,
        Direction::Right => 1,
        Direction::Down => 0,
        Direction::Left => -1,
    }
}

/// The index of the first newline in `s`, or `s.len()` when `s` holds none.
pub open spec fn find_newline(s: Seq<char>) -> int
    decreases s.len(),
{
    if s.len() == 0 {
        0
    } else if s[0] == '\n' {
        0
    } else {
        1 + find_newline(s.skip(1))
    }
}

/// `find_newline` is the unique position that is either the first `'\n'` of
/// `s` or, failing that, the end of `s`.
pub proof fn lemma_find_newline_at(s: Seq<char>, k: int)
    requires
        0 <= k <= s.len(),
        forall|m: int| 0 <= m < k ==> s[m] != '\n',
        k < s.len() ==> s[k] == '\n',
    ensures
        find_newline(s) == k,
    decreases s.len(),
{
    if s.len() == 0 {
    } else if s[0] == '\n' {
        assert(k == 0);
    } else {
        assert(k > 0);
        assert(forall|m: int| 0 <= m < k - 1 ==> s.skip(1)[m] == s[m + 1]);
        lemma_find_newline_at(s.skip(1), k - 1);
    }
}

/// The lines of `s`: the maximal `'\n'`-free segments, with a final newline
/// closing the last line rather than opening an empty one.
pub open spec fn lines_of(s: Seq<char>) -> Seq<Seq<char>>
    decreases s.len()
        via lines_of_decreases
{
    if s.len() == 0 {
        Seq::empty()
    } else {
        let k = find_newline(s);
        if k == s.len() {
            seq![s]
        } else {
            seq![s.take(k)] + lines_of(s.skip(k + 1))
        }
    }
}

#[via_fn]
proof fn lines_of_decreases(s: Seq<char>) {
    lemma_find_newline_bounds(s);
}

/// `find_newline` always lands inside `[0, s.len()]`, before a newline or at
/// the end, with no newline earlier.
pub proof fn lemma_find_newline_bounds(s: Seq<char>)
    ensures
        0 <= find_newline(s) <= s.len(),
        find_newline(s) < s.len() ==> s[find_newline(s)] == '\n',
        forall|m: int| 0 <= m < find_newline(s) ==> s[m] != '\n',
    decreases s.len(),
{
    if s.len() == 0 {
    } else if s[0] == '\n' {
    } else {
        lemma_find_newline_bounds(s.skip(1));
        assert(forall|m: int| 0 <= m < find_newline(s.skip(1)) ==> s.skip(1)[m] != '\n');
        assert forall|m: int| 0 <= m < find_newline(s) implies s[m] != '\n' by {
            if m > 0 {
                assert(s.skip(1)[m - 1] == s[m]);
            }
        };
    }
}

/// Whether the rows of a split input disagree about their width.
pub open spec fn ragged(ls: Seq<Seq<char>>) -> bool {
    exists|r: int| 0 <= r < ls.len() && (#[trigger] ls[r]).len() != ls[0].len()
}

/// The column count a text grid implies: the width of its first line, or 0
/// when there are no lines at all.
pub open spec fn spec_columns(s: Seq<char>) -> int {
    if lines_of(s).len() == 0 {
        0
    } else {
        lines_of(s)[0].len() as int
    }
}

/// Value types whose equality test the grid's linear search can rely on.
pub trait CellEq: Sized {
    /// Equality of two cell values, agreeing exactly with mathematical
    /// equality of the values.
    fn cell_eq(&self, other: &Self) -> (r: bool)
        ensures
            r == (self == other),
    ;
}

impl CellEq for u8 {
    fn cell_eq(&self, other: &Self) -> (r: bool) {
        *self == *other
    }
}

impl CellEq for char {
    fn cell_eq(&self, other: &Self) -> (r: bool) {
        *self == *other
    }
}

impl CellEq for u32 {
    fn cell_eq(&self, other: &Self) -> (r: bool) {
        *self == *other
    }
}

/// The position of the first occurrence of `x` in `s`, if any.
pub open spec fn find_first<T>(s: Seq<T>, x: T) -> Option<int>
    decreases s.len(),
{
    if s.len() == 0 {
        None
    } else if s[0] == x {
        Some(0int)
    } else {
        match find_first(s.skip(1), x) {
            Some(i) => Some(i + 1),
            None => None,
        }
    }
}

/// `find_first` is pinned by its characteristic facts: nothing matches
/// before position `k`, and `k` is either a match or the end.
pub proof fn lemma_find_first_at<T>(s: Seq<T>, x: T, k: int)
    requires
        0 <= k <= s.len(),
        forall|m: int| 0 <= m < k ==> s[m] != x,
        k < s.len() ==> s[k] == x,
    ensures
        find_first(s, x) == (if k < s.len() {
            Some(k)
        } else {
            None::<int>
        }),
    decreases s.len(),
{
    if s.len() == 0 {
    } else if s[0] == x {
        assert(k == 0);
    } else {
        assert(k > 0);
        assert(forall|m: int| 0 <= m < k - 1 ==> s.skip(1)[m] == s[m + 1]);
        lemma_find_first_at(s.skip(1), x, k - 1);
    }
}

/// What `find_first` answers always means: a found index is the first
/// match, and `None` means no match at all.
pub proof fn lemma_find_first_props<T>(s: Seq<T>, x: T)
    ensures
        match find_first(s, x) {
            Some(k) => 0 <= k < s.len() && s[k] == x && (forall|j: int| 0 <= j < k ==> s[j] != x),
            None => forall|j: int| 0 <= j < s.len() ==> s[j] != x,
        },
    decreases s.len(),
{
    if s.len() > 0 && s[0] != x {
        lemma_find_first_props(s.skip(1), x);
        assert(forall|j: int| 0 <= j < s.skip(1).len() ==> s.skip(1)[j] == s[j + 1]);
        match find_first(s.skip(1), x) {
            Some(i) => {
                assert(find_first(s, x) == Some(i + 1));
                assert(s.skip(1)[i] == s[i + 1]);
                assert forall|j: int| 0 <= j < i + 1 implies s[j] != x by {
                    if j > 0 {
                        assert(s.skip(1)[j - 1] == s[j]);
                    }
                };
            }
            None => {
                assert forall|j: int| 0 <= j < s.len() implies s[j] != x by {
                    if j > 0 {
                        assert(s.skip(1)[j - 1] == s[j]);
                    }
                };
            }
        }
    }
}

/// How a grid construction attempt can fail.
#[derive(Debug, Copy, Clone, PartialEq, Eq, Structural)]
pub enum GridError {
    /// The input lines do not all share the first line's length.
    RaggedRows,
}

/// A dense two-dimensional field of values, stored row-major in a flat
/// vector of `rows * columns` cells.
pub struct Grid<T> {
    /// The cells in row-major order; cell `(r, c)` lives at `r * columns + c`.
    pub s: Vec<T>,
    pub rows: usize,
    pub columns: usize,
}

impl<T: Copy> Grid<T> {
    /// The length invariant every well-formed grid keeps: the flat vector
    /// holds exactly `rows * columns` values.
    pub open spec fn wf(&self) -> bool {
        self.s@.len() == self.rows * self.columns
    }

    /// Whether `(r, c)` lies inside `[0, rows) x [0, columns)`.
    pub open spec fn in_bounds(&self, r: int, c: int) -> bool {
        0 <= r < self.rows && 0 <= c < self.columns
    }

    /// The value of the cell at `p`, or `None` when `p` lies outside the grid.
    pub open spec fn spec_get(&self, p: Point) -> Option<T> {
        if self.in_bounds(p.0 as int, p.1 as int) {
            Some(self.s@[p.0 * self.columns + p.1])
        } else {
            None
        }
    }

    /// The neighbor of `p` one step in direction `d`, or `None` when that
    /// step leaves the grid.
    pub open spec fn spec_next(&self, p: Point, d: Direction) -> Option<Point> {
        let r = p.0 + row_step(d);
        let c = p.1 + col_step(d);
        if self.in_bounds(r, c) {
            Some((r as usize, c as usize))
        } else {
            None
        }
    }

    /// Builds a grid from newline-separated text, mapping every cell
    /// character through `mapper` in row-major order. The column count is
    /// the first line's length and the row count is the line count; input
    /// whose lines disagree about their length is rejected rather than
    /// silently misindexed.
    pub fn construct<F: Fn(char) -> T>(input: &str, mapper: F) -> (res: Result<Grid<T>, GridError>)
        requires
            forall|r: int, c: int|
                0 <= r < lines_of(input@).len() && 0 <= c < lines_of(input@)[r].len()
                    ==> call_requires(mapper, (#[trigger] lines_of(input@)[r][c],)),
        ensures
            res matches Ok(g) ==> {
                &&& g.wf()
                &&& g.rows == lines_of(input@).len()
                &&& g.columns == spec_columns(input@)
                &&& forall|r: int, c: int|
                    0 <= r < g.rows && 0 <= c < g.columns
                        ==> call_ensures(mapper, (lines_of(input@)[r][c],), #[trigger] g.s@[r * g.columns + c])
            },
            res matches Ok(_) <==> !ragged(lines_of(input@)),
            res matches Err(e) ==> e == GridError::RaggedRows,
    {
        let ghost whole = input@;
        let ghost ls = lines_of(whole);
        let n: usize = input.unicode_len();
        let mut vals: Vec<T> = Vec::new();
        let mut columns: usize = 0;
        let mut rows: usize = 0;
        let mut i: usize = 0;
        proof {
            assert(whole.skip(0) =~= whole);
            assert(ls.skip(0) =~= ls);
        }
        while i < n
            invariant
                whole == input@,
                ls == lines_of(whole),
                n == whole.len(),
                0 <= i <= n,
                rows <= i,
                rows <= ls.len(),
                lines_of(whole.skip(i as int)) == ls.skip(rows as int),
                rows == 0 ==> columns == 0 && i == 0,
                rows > 0 ==> columns == ls[0].len(),
                forall|r: int| 0 <= r < rows ==> (#[trigger] ls[r]).len() == columns,
                vals@.len() == rows * columns,
                forall|r: int, c: int|
                    0 <= r < rows && 0 <= c < columns
                        ==> call_ensures(mapper, (ls[r][c],), #[trigger] vals@[r * columns + c]),
                forall|r: int, c: int|
                    0 <= r < ls.len() && 0 <= c < ls[r].len()
                        ==> call_requires(mapper, (#[trigger] ls[r][c],)),
            decreases n - i,
        {
            let mut j: usize = i;
            while j < n && input.get_char(j) != '\n'
                invariant
                    whole == input@,
                    n == whole.len(),
                    i <= j <= n,
                    forall|m: int| i <= m < j ==> whole[m] != '\n',
                decreases n - j,
            {
                j = j + 1;
            }
            let ghost line = whole.subrange(i as int, j as int);
            proof {
                let suf = whole.skip(i as int);
                assert(forall|m: int| 0 <= m < suf.len() ==> suf[m] == whole[i + m]);
                lemma_find_newline_at(suf, j as int - i as int);
                if j < n {
                    assert(suf.take(j as int - i as int) =~= line);
                    assert(suf.skip(j as int - i as int + 1) =~= whole.skip(j as int + 1));
                    assert(lines_of(suf) == seq![line] + lines_of(whole.skip(j as int + 1)));
                } else {
                    assert(suf =~= line);
                    assert(lines_of(suf) == seq![line]);
                }
                assert(ls.skip(rows as int).len() >= 1);
                assert(rows < ls.len());
                assert(ls.skip(rows as int)[0] == ls[rows as int]);
                assert(ls[rows as int] == line);
                if j < n {
                    let rest = lines_of(whole.skip(j as int + 1));
                    assert(ls.skip(rows as int).len() == 1 + rest.len());
                    assert forall|k: int| 0 <= k < rest.len() implies
                        ls.skip(rows as int + 1)[k] == rest[k] by {
                        assert(ls.skip(rows as int + 1)[k] == ls[rows as int + 1 + k]);
                        assert(ls.skip(rows as int)[1 + k] == ls[rows as int + 1 + k]);
                        assert(ls.skip(rows as int)[1 + k] == rest[k]);
                    };
                    assert(ls.skip(rows as int + 1) =~= rest);
                } else {
                    assert(ls.skip(rows as int).len() == 1);
                    assert(rows + 1 == ls.len());
                }
            }
            let line_len: usize = j - i;
            if rows == 0 {
                columns = line_len;
            } else if line_len != columns {
                proof {
                    assert(ls[rows as int].len() != ls[0].len());
                    assert(ragged(ls));
                }
                return Err(GridError::RaggedRows);
            }
            let mut m: usize = i;
            while m < j
                invariant
                    whole == input@,
                    ls == lines_of(whole),
                    n == whole.len(),
                    i <= m <= j <= n,
                    rows < ls.len(),
                    ls[rows as int] == whole.subrange(i as int, j as int),
                    j < n ==> ls.skip(rows as int + 1) == lines_of(whole.skip(j as int + 1)),
                    j == n ==> rows + 1 == ls.len(),
                    columns == j - i,
                    vals@.len() == rows * columns + (m - i),
                    forall|r: int, c: int|
                        0 <= r < rows && 0 <= c < columns
                            ==> call_ensures(mapper, (ls[r][c],), #[trigger] vals@[r * columns + c]),
                    forall|c: int|
                        0 <= c < m - i
                            ==> call_ensures(mapper, (ls[rows as int][c],), #[trigger] vals@[rows * columns + c]),
                    forall|r: int, c: int|
                        0 <= r < ls.len() && 0 <= c < ls[r].len()
                            ==> call_requires(mapper, (#[trigger] ls[r][c],)),
                decreases j - m,
            {
                let ch = input.get_char(m);
                proof {
                    assert(ls[rows as int][m - i] == whole[m as int]);
                }
                let val = mapper(ch);
                vals.push(val);
                proof {
                    assert forall|r: int, c: int| 0 <= r < rows && 0 <= c < columns implies
                        call_ensures(mapper, (ls[r][c],), #[trigger] vals@[r * columns + c]) by {
                        lemma_row_major_mono(columns as int, r, c, rows as int);
                    };
                }
                m = m + 1;
            }
            rows = rows + 1;
            proof {
                assert(rows * columns == (rows - 1) * columns + columns) by (nonlinear_arith);
                assert forall|r: int, c: int| 0 <= r < rows && 0 <= c < columns implies
                    call_ensures(mapper, (ls[r][c],), #[trigger] vals@[r * columns + c]) by {
                    if r < rows - 1 {
                        lemma_row_major_mono(columns as int, r, c, rows as int - 1);
                    }
                };
            }
            if j < n {
                i = j + 1;
            } else {
                i = n;
                proof {
                    assert(whole.skip(n as int).len() == 0);
                    assert(lines_of(whole.skip(n as int)) =~= ls.skip(rows as int));
                }
            }
        }
        proof {
            assert(whole.skip(n as int).len() == 0);
            assert(ls.skip(rows as int).len() == 0);
            assert(rows == ls.len());
            assert(!ragged(ls));
        }
        Ok(Grid { s: vals, rows, columns })
    }

    /// Direct construction from a pre-populated flat value vector; the caller
    /// guarantees the length invariant.
    pub fn manual_construct(s: Vec<T>, rows: usize, columns: usize) -> (g: Grid<T>)
        requires
            s@.len() == rows * columns,
        ensures
            g.wf(),
            g.s@ == s@,
            g.rows == rows,
            g.columns == columns,
    {
        Grid { s, rows, columns }
    }

    /// Bounds-checked read of the cell at `position`; `None` instead of a
    /// panic for any out-of-range coordinate.
    pub fn get(&self, position: Point) -> (r: Option<T>)
        requires
            self.wf(),
        ensures
            r == self.spec_get(position),
    {
        if position.0 < self.rows && position.1 < self.columns {
            proof {
                assert(self.s.len() == self.s@.len());
                lemma_row_major_index(self.rows as int, self.columns as int, position.0 as int, position.1 as int);
            }
            Some(self.s[position.0 * self.columns + position.1])
        } else {
            None
        }
    }

    /// `get` for possibly-negative probe coordinates: `None` for any
    /// coordinate outside the grid, including negative ones.
    pub fn get_i32(&self, position: (i32, i32)) -> (r: Option<T>)
        requires
            self.wf(),
        ensures
            r == (if self.in_bounds(position.0 as int, position.1 as int) {
                self.spec_get((position.0 as usize, position.1 as usize))
            } else {
                None::<T>
            }),
    {
        if position.0 < 0 || position.1 < 0 {
            return None;
        }
        let r = position.0 as usize;
        let c = position.1 as usize;
        if r < self.rows && c < self.columns {
            self.get((r, c))
        } else {
            None
        }
    }

    /// Bounds-checked write: the cell at `position` is replaced when the
    /// position is inside the grid, and the write is silently dropped when
    /// it is not.
    pub fn set(&mut self, position: Point, val: T)
        requires
            old(self).wf(),
        ensures
            final(self).wf(),
            final(self).rows == old(self).rows,
            final(self).columns == old(self).columns,
            final(self).s@ == (if old(self).in_bounds(position.0 as int, position.1 as int) {
                old(self).s@.update(position.0 * old(self).columns + position.1, val)
            } else {
                old(self).s@
            }),
    {
        if position.0 < self.rows && position.1 < self.columns {
            proof {
                assert(self.s.len() == self.s@.len());
                lemma_row_major_index(self.rows as int, self.columns as int, position.0 as int, position.1 as int);
            }
            let idx = position.0 * self.columns + position.1;
            self.s[idx] = val;
        }
    }

    /// The neighbor of `position` one step in `direction`, or `None` when
    /// that neighbor would fall outside `[0, rows) x [0, columns)`. This is
    /// the single source of truth for edge-of-grid semantics.
    pub fn next_position(&self, position: Point, direction: Direction) -> (r: Option<Point>)
        ensures
            r == self.spec_next(position, direction),
    {
        match direction {
            Direction::Up => {
                if position.0 > 0 && position.0 - 1 < self.rows && position.1 < self.columns {
                    Some((position.0 - 1, position.1))
                } else {
                    None
                }
            }
            Direction::Right => {
                if position.0 < self.rows && position.1 < usize::MAX && position.1 + 1 < self.columns {
                    Some((position.0, position.1 + 1))
                } else {
                    None
                }
            }
            Direction::Down => {
                if position.0 < usize::MAX && position.0 + 1 < self.rows && position.1 < self.columns {
                    Some((position.0 + 1, position.1))
                } else {
                    None
                }
            }
            Direction::Left => {
                if position.0 < self.rows && position.1 > 0 && position.1 - 1 < self.columns {
                    Some((position.0, position.1 - 1))
                } else {
                    None
                }
            }
        }
    }

    /// The four neighbors of `position` in the fixed order Up, Right, Down,
    /// Left, each `None` when off-grid: exactly the four results of
    /// `next_position`.
    pub fn adjacent(&self, position: Point) -> (r: [Option<Point>; 4])
        ensures
            r[0] == self.spec_next(position, Direction::Up),
            r[1] == self.spec_next(position, Direction::Right),
            r[2] == self.spec_next(position, Direction::Down),
            r[3] == self.spec_next(position, Direction::Left),
    {
        [
            self.next_position(position, Direction::Up),
            self.next_position(position, Direction::Right),
            self.next_position(position, Direction::Down),
            self.next_position(position, Direction::Left),
        ]
    }

    /// The four neighbors of `position` paired with their cell values, in
    /// the fixed order Up, Right, Down, Left.
    pub fn adjacent_one(&self, position: Point) -> (r: [(Option<Point>, Option<T>); 4])
        requires
            self.wf(),
        ensures
            forall|k: int| 0 <= k < 4 ==> (#[trigger] r[k]).0 == self.spec_next(position, spec_direction_order()[k]),
            forall|k: int| 0 <= k < 4 ==> (#[trigger] r[k]).1 == (match self.spec_next(position, spec_direction_order()[k]) {
                Some(q) => self.spec_get(q),
                None => None,
            }),
    {
        let up = self.next_position(position, Direction::Up);
        let right = self.next_position(position, Direction::Right);
        let down = self.next_position(position, Direction::Down);
        let left = self.next_position(position, Direction::Left);
        let up_val = match up {
            Some(p) => self.get(p),
            None => None,
        };
        let right_val = match right {
            Some(p) => self.get(p),
            None => None,
        };
        let down_val = match down {
            Some(p) => self.get(p),
            None => None,
        };
        let left_val = match left {
            Some(p) => self.get(p),
            None => None,
        };
        let r = [(up, up_val), (right, right_val), (down, down_val), (left, left_val)];
        proof {
            assert(r[0].0 == self.spec_next(position, Direction::Up));
            assert(r[1].0 == self.spec_next(position, Direction::Right));
            assert(r[2].0 == self.spec_next(position, Direction::Down));
            assert(r[3].0 == self.spec_next(position, Direction::Left));
        }
        r
    }

    /// The row-major position of the first cell holding `needle`, if any:
    /// the flat index of the first match, split into row and column.
    pub open spec fn spec_search(&self, needle: T) -> Option<Point> {
        match find_first(self.s@, needle) {
            Some(k) => Some((
                (k / self.columns as int) as usize,
                (k % self.columns as int) as usize,
            )),
            None => None,
        }
    }

    /// Every cell exactly once in row-major order, each paired with its
    /// position.
    pub fn iter(&self) -> (r: Vec<(Point, T)>)
        requires
            self.wf(),
        ensures
            r@.len() == self.rows * self.columns,
            forall|i: int, j: int| 0 <= i < self.rows && 0 <= j < self.columns ==>
                #[trigger] r@[i * self.columns + j] == (((i as usize, j as usize), self.s@[i * self.columns + j])),
    {
        let mut r: Vec<(Point, T)> = Vec::new();
        let mut i: usize = 0;
        while i < self.rows
            invariant
                self.wf(),
                0 <= i <= self.rows,
                r@.len() == i * self.columns,
                forall|a: int, b: int| 0 <= a < i && 0 <= b < self.columns ==>
                    #[trigger] r@[a * self.columns + b] == (((a as usize, b as usize), self.s@[a * self.columns + b])),
            decreases self.rows - i,
        {
            let mut j: usize = 0;
            while j < self.columns
                invariant
                    self.wf(),
                    0 <= i < self.rows,
                    0 <= j <= self.columns,
                    r@.len() == i * self.columns + j,
                    forall|a: int, b: int| 0 <= a < i && 0 <= b < self.columns ==>
                        #[trigger] r@[a * self.columns + b] == (((a as usize, b as usize), self.s@[a * self.columns + b])),
                    forall|b: int| 0 <= b < j ==>
                        #[trigger] r@[i * self.columns + b] == (((i as usize, b as usize), self.s@[i * self.columns + b])),
                decreases self.columns - j,
            {
                proof {
                    assert(self.s.len() == self.s@.len());
                    lemma_row_major_index(self.rows as int, self.columns as int, i as int, j as int);
                }
                r.push(((i, j), self.s[i * self.columns + j]));
                proof {
                    assert forall|a: int, b: int| 0 <= a < i && 0 <= b < self.columns implies
                        #[trigger] r@[a * self.columns + b] == (((a as usize, b as usize), self.s@[a * self.columns + b])) by {
                        lemma_row_major_mono(self.columns as int, a, b, i as int);
                    };
                }
                j = j + 1;
            }
            i = i + 1;
            proof {
                assert(i * self.columns == (i - 1) * self.columns + self.columns) by (nonlinear_arith);
            }
        }
        r
    }
}

impl<T: Copy + CellEq> Grid<T> {
    /// Linear scan for the first cell equal to `needle`, in row-major order;
    /// `None` when the grid holds no such cell.
    pub fn search(&self, needle: T) -> (r: Option<Point>)
        requires
            self.wf(),
        ensures
            r == self.spec_search(needle),
    {
        let n = self.s.len();
        let mut idx: usize = 0;
        while idx < n
            invariant
                self.wf(),
                n == self.s@.len(),
                0 <= idx <= n,
                forall|m: int| 0 <= m < idx ==> self.s@[m] != needle,
            decreases n - idx,
        {
            if self.s[idx].cell_eq(&needle) {
                proof {
                    lemma_find_first_at(self.s@, needle, idx as int);
                    if self.columns == 0 {
                        assert(self.rows * 0 == 0) by (nonlinear_arith);
                    }
                }
                return Some((idx / self.columns, idx % self.columns));
            }
            idx = idx + 1;
        }
        proof {
            lemma_find_first_at(self.s@, needle, n as int);
        }
        None
    }
}

/// The taxicab distance between two points: the sum of the absolute row and
/// column differences.
pub open spec fn spec_manhattan(p: Point, q: Point) -> int {
    spec_abs_diff(p.0 as int, q.0 as int) + spec_abs_diff(p.1 as int, q.1 as int)
}

pub open spec fn spec_abs_diff(a: int, b: int) -> int {
    if a >= b {
        a - b
    } else {
        b - a
    }
}

/// The taxicab (Manhattan) distance between two points.
pub fn euclid_distance(this: &Point, other: &Point) -> (r: usize)
    requires
        spec_manhattan(*this, *other) <= usize::MAX,
    ensures
        r == spec_manhattan(*this, *other),
{
    let dr = if this.0 >= other.0 {
        this.0 - other.0
    } else {
        other.0 - this.0
    };
    let dc = if this.1 >= other.1 {
        this.1 - other.1
    } else {
        other.1 - this.1
    };
    dr + dc
}

/// The mathematical content of a grid: its cell sequence and dimensions,
/// free of any particular container. Traversal specifications are stated
/// over this model.
#[verifier::ext_equal]
pub ghost struct GridModel<T> {
    pub cells: Seq<T>,
    pub rows: int,
    pub cols: int,
}

impl<T> GridModel<T> {
    pub open spec fn wf(self) -> bool {
        self.rows >= 0 && self.cols >= 0 && self.cells.len() == self.rows * self.cols
    }

    pub open spec fn in_bounds(self, r: int, c: int) -> bool {
        0 <= r < self.rows && 0 <= c < self.cols
    }

    /// The value of the cell at `p`, or `None` outside the grid.
    pub open spec fn get(self, p: Point) -> Option<T> {
        if self.in_bounds(p.0 as int, p.1 as int) {
            Some(self.cells[p.0 * self.cols + p.1])
        } else {
            None
        }
    }

    /// The neighbor of `p` one step in direction `d`, or `None` when that
    /// step leaves the grid.
    pub open spec fn next(self, p: Point, d: Direction) -> Option<Point> {
        let r = p.0 + row_step(d);
        let c = p.1 + col_step(d);
        if self.in_bounds(r, c) {
            Some((r as usize, c as usize))
        } else {
            None
        }
    }
}

impl<T: Copy> Grid<T> {
    /// The model this grid realizes.
    pub open spec fn model(&self) -> GridModel<T> {
        GridModel { cells: self.s@, rows: self.rows as int, cols: self.columns as int }
    }
}

/// Round trip: a grid built from rectangular text holds, at every in-range
/// `(r, c)`, exactly the image of the source character at that position, and
/// `get` returns it. The hypotheses are what `Grid::construct` ensures of a
/// successfully built grid.
pub proof fn lemma_construct_get_round_trip<T: Copy, F: Fn(char) -> T>(
    g: Grid<T>,
    text: Seq<char>,
    mapper: F,
    r: int,
    c: int,
)
    requires
        g.wf(),
        g.rows == lines_of(text).len(),
        g.columns == spec_columns(text),
        forall|a: int, b: int|
            0 <= a < g.rows && 0 <= b < g.columns
                ==> call_ensures(mapper, (lines_of(text)[a][b],), #[trigger] g.s@[a * g.columns + b]),
        0 <= r < g.rows,
        0 <= c < g.columns,
    ensures
        g.spec_get((r as usize, c as usize)) == Some(g.s@[r * g.columns + c]),
        call_ensures(mapper, (lines_of(text)[r][c],), g.s@[r * g.columns + c]),
{
    lemma_row_major_index(g.rows as int, g.columns as int, r, c);
}

/// Boundary law: a neighbor query answers `None` exactly when applying the
/// direction's unit offset would leave `[0, rows) x [0, columns)`.
pub proof fn lemma_next_position_boundary<T: Copy>(g: Grid<T>, p: Point, d: Direction)
    ensures
        g.spec_next(p, d) is None <==> !g.in_bounds(p.0 + row_step(d), p.1 + col_step(d)),
        g.spec_next(p, d) matches Some(q) ==> q.0 == p.0 + row_step(d) && q.1 == p.1 + col_step(d),
{
}

/// A sequence of distinct points that all lie inside `[0, rows) x
/// [0, cols)` cannot be longer than the grid has cells.
pub proof fn lemma_distinct_points_bound(pts: Seq<Point>, rows: int, cols: int)
    requires
        pts.no_duplicates(),
        forall|i: int| 0 <= i < pts.len() ==> (#[trigger] pts[i]).0 < rows && pts[i].1 < cols,
        rows >= 0,
        cols >= 0,
    ensures
        pts.len() <= rows * cols,
{
    broadcast use vstd::seq_lib::group_seq_properties;

    let idx = pts.map_values(|p: Point| p.0 * cols + p.1);
    assert(idx.len() == pts.len());
    assert forall|i: int, j: int| 0 <= i < idx.len() && 0 <= j < idx.len() && i != j implies
        idx[i] != idx[j] by {
        let p = pts[i];
        let q = pts[j];
        assert(p != q);
        if p.0 * cols + p.1 == q.0 * cols + q.1 {
            vstd::arithmetic::div_mod::lemma_fundamental_div_mod_converse(
                p.0 * cols + p.1,
                cols,
                p.0 as int,
                p.1 as int,
            );
            vstd::arithmetic::div_mod::lemma_fundamental_div_mod_converse(
                q.0 * cols + q.1,
                cols,
                q.0 as int,
                q.1 as int,
            );
        }
    };
    assert(idx.no_duplicates());
    idx.unique_seq_to_set();
    assert forall|v: int| idx.to_set().contains(v) implies vstd::set_lib::set_int_range(
        0,
        rows * cols,
    ).contains(v) by {
        let i = choose|i: int| 0 <= i < idx.len() && idx[i] == v;
        lemma_row_major_index(rows, cols, pts[i].0 as int, pts[i].1 as int);
    };
    assert(idx.to_set().subset_of(vstd::set_lib::set_int_range(0, rows * cols)));
    vstd::set_lib::lemma_int_range(0, rows * cols);
    vstd::set_lib::lemma_len_subset(idx.to_set(), vstd::set_lib::set_int_range(0, rows * cols));
}

/// The fixed Up, Right, Down, Left order in which neighbor queries report
/// their four results.
pub open spec fn spec_direction_order() -> Seq<Direction> {
    seq![Direction::Up, Direction::Right, Direction::Down, Direction::Left]
}

/// A row-major index from a row before `i` stays below the start of row `i`.
pub proof fn lemma_row_major_mono(columns: int, a: int, b: int, i: int)
    requires
        0 <= a < i,
        0 <= b < columns,
    ensures
        0 <= a * columns + b < i * columns,
{
    assert(0 <= a * columns + b < i * columns) by (nonlinear_arith)
        requires
            0 <= a < i,
            0 <= b < columns,
    ;
}

/// For `r < rows` and `c < columns`, the row-major index `r * columns + c`
/// stays below `rows * columns`.
pub proof fn lemma_row_major_index(rows: int, columns: int, r: int, c: int)
    requires
        0 <= r < rows,
        0 <= c < columns,
    ensures
        0 <= r * columns + c < rows * columns,
        r * columns + c < rows * columns,
{
    assert(r * columns + c < rows * columns) by (nonlinear_arith)
        requires
            0 <= r < rows,
            0 <= c < columns,
    ;
    assert(0 <= r * columns) by (nonlinear_arith)
        requires
            0 <= r,
            0 <= columns,
    ;
}

} // verus!
