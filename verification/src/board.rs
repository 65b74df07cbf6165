//! The Othello/Reversi rules engine: an 8x8 board, move legality,
//! flip computation and turn keeping.
//!
//! The board is pure game logic; both the client (to reject illegal input
//! locally) and the server (as the authority for the relay) instantiate it.

use vstd::prelude::*;

verus! {

/// A piece that might be placed on the board.
#[derive(Clone, Copy, Debug, PartialEq, Eq, Structural)]
pub enum Piece {
    Black,
    White,
}

impl DeepView for Piece {
    type V = Piece;

    open spec fn deep_view(&self) -> Piece {
        *self
    }
}

impl Piece {
    /// The complementary colour of this piece.
    pub open spec fn spec_opposite(&self) -> Piece {
        match self {
            Piece::Black => Piece::White,
            Piece::White => Piece::Black,
        }
    }

    /// Return the complementary piece of the one this is called on.
    #[verifier::when_used_as_spec(spec_opposite)]
    pub fn opposite(&self) -> (r: Piece)
        ensures
            r == self.spec_opposite(),
    {
        match self {
            Piece::Black => Piece::White,
            Piece::White => Piece::Black,
        }
    }
}

/// The contents of the 8x8 grid, row by row: `grid[x][y]` is the cell in
/// column `x` and row `y`.
pub type Grid = Seq<Seq<Option<Piece>>>;

/// An 8x8 grid of cells.
pub open spec fn grid_wf(g: Grid) -> bool {
    &&& g.len() == 8
    &&& forall|x: int| 0 <= x < 8 ==> (#[trigger] g[x]).len() == 8
}

/// A position that lies on the board.
pub open spec fn in_bounds(x: int, y: int) -> bool {
    0 <= x < 8 && 0 <= y < 8
}

/// The cell of `g` at position `(x, y)`.
pub open spec fn cell(g: Grid, x: int, y: int) -> Option<Piece> {
    g[x][y]
}

/// The grid every game starts from: two white and two black stones
/// crosswise in the middle, everything else empty.
pub open spec fn initial_grid() -> Grid {
    Seq::new(8, |x: int| Seq::new(8, |y: int|
        if (x == 3 && y == 3) || (x == 4 && y == 4) {
            Some(Piece::White)
        } else if (x == 3 && y == 4) || (x == 4 && y == 3) {
            Some(Piece::Black)
        } else {
            None
        }))
}

/// One of the eight compass directions.
pub open spec fn is_dir(dx: int, dy: int) -> bool {
    -1 <= dx <= 1 && -1 <= dy <= 1 && !(dx == 0 && dy == 0)
}

/// How many steps a walk from `(x, y)` in direction `(dx, dy)` can still
/// take before it must leave the board; used as a termination measure.
pub open spec fn walk_measure(x: int, y: int, dx: int, dy: int) -> int {
    (if dx == 1 { 7 - x } else if dx == -1 { x } else { 0 })
    + (if dy == 1 { 7 - y } else if dy == -1 { y } else { 0 })
}

/// The number of consecutive opponent stones met when walking from
/// `(x, y)` in direction `(dx, dy)`, starting one step out.
pub open spec fn opp_run_len(g: Grid, x: int, y: int, dx: int, dy: int, p: Piece) -> int
    decreases walk_measure(x, y, dx, dy),
{
    let nx = x + dx;
    let ny = y + dy;
    if !is_dir(dx, dy) || !in_bounds(nx, ny) || cell(g, nx, ny) != Some(p.spec_opposite()) {
        0
    } else {
        1 + opp_run_len(g, nx, ny, dx, dy, p)
    }
}

/// The first position of the walk from `(x, y)` in direction `(dx, dy)`
/// that does not hold an opponent stone; it may lie off the board.
pub open spec fn run_end(g: Grid, x: int, y: int, dx: int, dy: int, p: Piece) -> (int, int)
    decreases walk_measure(x, y, dx, dy),
{
    let nx = x + dx;
    let ny = y + dy;
    if !is_dir(dx, dy) || !in_bounds(nx, ny) || cell(g, nx, ny) != Some(p.spec_opposite()) {
        (nx, ny)
    } else {
        run_end(g, nx, ny, dx, dy, p)
    }
}

/// Placing `p` at `(x, y)` closes the line in direction `(dx, dy)`:
/// one or more opponent stones followed by an own stone, with nothing
/// empty and nothing off the board in between.
pub open spec fn dir_affected(g: Grid, x: int, y: int, dx: int, dy: int, p: Piece) -> bool {
    let end = run_end(g, x, y, dx, dy, p);
    &&& opp_run_len(g, x, y, dx, dy, p) >= 1
    &&& in_bounds(end.0, end.1)
    &&& cell(g, end.0, end.1) == Some(p)
}

/// A stone of colour `p` placed at `(x, y)` would close at least one line.
pub open spec fn spec_can_place(g: Grid, x: int, y: int, p: Piece) -> bool {
    exists|dx: int, dy: int| is_dir(dx, dy) && dir_affected(g, x, y, dx, dy, p)
}

/// `(cx, cy)` is one of the opponent stones on the run walked from
/// `(x, y)` in direction `(dx, dy)`.
pub open spec fn on_run(g: Grid, x: int, y: int, dx: int, dy: int, p: Piece, cx: int, cy: int) -> bool
    decreases walk_measure(x, y, dx, dy),
{
    let nx = x + dx;
    let ny = y + dy;
    &&& is_dir(dx, dy)
    &&& in_bounds(nx, ny)
    &&& cell(g, nx, ny) == Some(p.spec_opposite())
    &&& (cx == nx && cy == ny || on_run(g, nx, ny, dx, dy, p, cx, cy))
}

/// `a` comes strictly before `b` in row-major order: by column first,
/// then by row.
pub open spec fn row_major_lt(a: (u8, u8), b: (u8, u8)) -> bool {
    a.0 < b.0 || (a.0 == b.0 && a.1 < b.1)
}

/// The stone at `(cx, cy)` turns to colour `p` when `p` is placed at
/// `(x, y)`: it lies on the opponent run of some closed line.
pub open spec fn spec_flipped(g: Grid, x: int, y: int, p: Piece, cx: int, cy: int) -> bool {
    exists|dx: int, dy: int|
        is_dir(dx, dy) && dir_affected(g, x, y, dx, dy, p) && on_run(g, x, y, dx, dy, p, cx, cy)
}

/// The number of stones of colour `p` in one row.
pub open spec fn row_count(r: Seq<Option<Piece>>, p: Piece) -> int
    decreases r.len(),
{
    if r.len() == 0 {
        0
    } else {
        (if r.last() == Some(p) { 1int } else { 0int }) + row_count(r.drop_last(), p)
    }
}

/// The number of stones of colour `p` on the whole grid.
pub open spec fn grid_count(g: Grid, p: Piece) -> int
    decreases g.len(),
{
    if g.len() == 0 {
        0
    } else {
        row_count(g.last(), p) + grid_count(g.drop_last(), p)
    }
}

/// The number of positions at which two rows of equal length differ.
pub open spec fn row_diff(r1: Seq<Option<Piece>>, r2: Seq<Option<Piece>>) -> int
    decreases r1.len(),
{
    if r1.len() == 0 {
        0
    } else {
        (if r1.last() == r2.last() { 0int } else { 1int }) + row_diff(r1.drop_last(), r2.drop_last())
    }
}

/// The number of positions at which two grids of equal shape differ.
pub open spec fn grid_diff(g1: Grid, g2: Grid) -> int
    decreases g1.len(),
{
    if g1.len() == 0 {
        0
    } else {
        row_diff(g1.last(), g2.last()) + grid_diff(g1.drop_last(), g2.drop_last())
    }
}

proof fn lemma_row_diff_nonneg(r1: Seq<Option<Piece>>, r2: Seq<Option<Piece>>)
    ensures
        row_diff(r1, r2) >= 0,
    decreases r1.len(),
{
    if r1.len() > 0 {
        lemma_row_diff_nonneg(r1.drop_last(), r2.drop_last());
    }
}

proof fn lemma_grid_diff_nonneg(g1: Grid, g2: Grid)
    ensures
        grid_diff(g1, g2) >= 0,
    decreases g1.len(),
{
    if g1.len() > 0 {
        lemma_row_diff_nonneg(g1.last(), g2.last());
        lemma_grid_diff_nonneg(g1.drop_last(), g2.drop_last());
    }
}

proof fn lemma_row_diff_pos(r1: Seq<Option<Piece>>, r2: Seq<Option<Piece>>, j: int)
    requires
        r1.len() == r2.len(),
        0 <= j < r1.len(),
        r1[j] != r2[j],
    ensures
        row_diff(r1, r2) >= 1,
    decreases r1.len(),
{
    lemma_row_diff_nonneg(r1.drop_last(), r2.drop_last());
    if j < r1.len() - 1 {
        lemma_row_diff_pos(r1.drop_last(), r2.drop_last(), j);
    }
}

proof fn lemma_row_diff_pos2(r1: Seq<Option<Piece>>, r2: Seq<Option<Piece>>, j1: int, j2: int)
    requires
        r1.len() == r2.len(),
        0 <= j1 < r1.len(),
        0 <= j2 < r1.len(),
        j1 != j2,
        r1[j1] != r2[j1],
        r1[j2] != r2[j2],
    ensures
        row_diff(r1, r2) >= 2,
    decreases r1.len(),
{
    let lo = if j1 < j2 { j1 } else { j2 };
    let hi = if j1 < j2 { j2 } else { j1 };
    if hi == r1.len() - 1 {
        lemma_row_diff_pos(r1.drop_last(), r2.drop_last(), lo);
    } else {
        lemma_row_diff_pos2(r1.drop_last(), r2.drop_last(), lo, hi);
    }
}

proof fn lemma_grid_diff_pos(g1: Grid, g2: Grid, x: int, y: int)
    requires
        g1.len() == g2.len(),
        forall|i: int| 0 <= i < g1.len() ==> (#[trigger] g1[i]).len() == g2[i].len(),
        0 <= x < g1.len(),
        0 <= y < g1[x].len(),
        g1[x][y] != g2[x][y],
    ensures
        grid_diff(g1, g2) >= 1,
    decreases g1.len(),
{
    lemma_grid_diff_nonneg(g1.drop_last(), g2.drop_last());
    lemma_row_diff_nonneg(g1.last(), g2.last());
    if x == g1.len() - 1 {
        lemma_row_diff_pos(g1.last(), g2.last(), y);
    } else {
        lemma_grid_diff_pos(g1.drop_last(), g2.drop_last(), x, y);
    }
}

proof fn lemma_grid_diff_two(g1: Grid, g2: Grid, x1: int, y1: int, x2: int, y2: int)
    requires
        g1.len() == g2.len(),
        forall|i: int| 0 <= i < g1.len() ==> (#[trigger] g1[i]).len() == g2[i].len(),
        0 <= x1 < g1.len(),
        0 <= y1 < g1[x1].len(),
        0 <= x2 < g1.len(),
        0 <= y2 < g1[x2].len(),
        !(x1 == x2 && y1 == y2),
        g1[x1][y1] != g2[x1][y1],
        g1[x2][y2] != g2[x2][y2],
    ensures
        grid_diff(g1, g2) >= 2,
    decreases g1.len(),
{
    lemma_grid_diff_nonneg(g1.drop_last(), g2.drop_last());
    lemma_row_diff_nonneg(g1.last(), g2.last());
    if x1 == x2 {
        if x1 == g1.len() - 1 {
            lemma_row_diff_pos2(g1.last(), g2.last(), y1, y2);
        } else {
            lemma_grid_diff_two(g1.drop_last(), g2.drop_last(), x1, y1, x2, y2);
        }
    } else {
        let hi_x = if x1 < x2 { x2 } else { x1 };
        let hi_y = if x1 < x2 { y2 } else { y1 };
        let lo_x = if x1 < x2 { x1 } else { x2 };
        let lo_y = if x1 < x2 { y1 } else { y2 };
        if hi_x == g1.len() - 1 {
            lemma_row_diff_pos(g1.last(), g2.last(), hi_y);
            lemma_grid_diff_pos(g1.drop_last(), g2.drop_last(), lo_x, lo_y);
        } else {
            lemma_grid_diff_two(g1.drop_last(), g2.drop_last(), x1, y1, x2, y2);
        }
    }
}

proof fn lemma_row_count_change(r1: Seq<Option<Piece>>, r2: Seq<Option<Piece>>, p: Piece)
    requires
        r1.len() == r2.len(),
        forall|j: int| 0 <= j < r1.len()
            ==> #[trigger] r2[j] == r1[j] || (r1[j] != Some(p) && r2[j] == Some(p)),
    ensures
        row_count(r2, p) == row_count(r1, p) + row_diff(r1, r2),
    decreases r1.len(),
{
    if r1.len() > 0 {
        assert(r2.last() == r1.last() || (r1.last() != Some(p) && r2.last() == Some(p)));
        lemma_row_count_change(r1.drop_last(), r2.drop_last(), p);
    }
}

proof fn lemma_grid_count_change(g1: Grid, g2: Grid, p: Piece)
    requires
        g1.len() == g2.len(),
        forall|i: int| 0 <= i < g1.len() ==> (#[trigger] g1[i]).len() == g2[i].len(),
        forall|i: int, j: int| 0 <= i < g1.len() && 0 <= j < g1[i].len()
            ==> #[trigger] g2[i][j] == g1[i][j] || (g1[i][j] != Some(p) && g2[i][j] == Some(p)),
    ensures
        grid_count(g2, p) == grid_count(g1, p) + grid_diff(g1, g2),
    decreases g1.len(),
{
    if g1.len() > 0 {
        let n = g1.len() - 1;
        assert(forall|j: int| 0 <= j < g1[n].len()
            ==> #[trigger] g2[n][j] == g1[n][j] || (g1[n][j] != Some(p) && g2[n][j] == Some(p)));
        lemma_row_count_change(g1.last(), g2.last(), p);
        lemma_grid_count_change(g1.drop_last(), g2.drop_last(), p);
    }
}

/// Every stone on an opponent run is an opponent stone on the board.
proof fn lemma_on_run_cell(g: Grid, x: int, y: int, dx: int, dy: int, p: Piece, cx: int, cy: int)
    requires
        on_run(g, x, y, dx, dy, p, cx, cy),
    ensures
        in_bounds(cx, cy),
        cell(g, cx, cy) == Some(p.spec_opposite()),
    decreases walk_measure(x, y, dx, dy),
{
    let nx = x + dx;
    let ny = y + dy;
    if !(cx == nx && cy == ny) {
        lemma_on_run_cell(g, nx, ny, dx, dy, p, cx, cy);
    }
}

/// Contains the info about the 8x8 board, and whose turn it is.
pub struct Board {
    squares: Vec<Vec<Option<Piece>>>,
    turn: Piece,
}

impl Board {
    /// The board always holds an 8x8 grid.
    pub open spec fn well_formed(self) -> bool {
        grid_wf(self.grid())
    }

    /// The mathematical contents of the board.
    pub closed spec fn grid(self) -> Grid {
        self.squares.deep_view()
    }

    /// Whose turn it is, as a spec value.
    pub closed spec fn spec_turn(self) -> Piece {
        self.turn
    }

    /// Create a new board holding the four starting stones, black to move.
    pub fn new() -> (r: Board)
        ensures
            r.well_formed(),
            r.grid() == initial_grid(),
            r.spec_turn() == Piece::Black,
    {
        let mut squares: Vec<Vec<Option<Piece>>> = Vec::new();
        let mut x: usize = 0;
        while x < 8
            invariant
                x <= 8,
                squares.len() == x,
                forall|i: int| 0 <= i < x ==> (#[trigger] squares@[i])@ =~= initial_grid()[i],
            decreases 8 - x,
        {
            let mut row: Vec<Option<Piece>> = Vec::new();
            let mut y: usize = 0;
            while y < 8
                invariant
                    x < 8,
                    y <= 8,
                    row.len() == y,
                    forall|j: int| 0 <= j < y ==> row@[j] == initial_grid()[x as int][j],
                decreases 8 - y,
            {
                let c: Option<Piece> = if (x == 3 && y == 3) || (x == 4 && y == 4) {
                    Some(Piece::White)
                } else if (x == 3 && y == 4) || (x == 4 && y == 3) {
                    Some(Piece::Black)
                } else {
                    None
                };
                row.push(c);
                y = y + 1;
            }
            squares.push(row);
            x = x + 1;
        }
        let r = Board { squares, turn: Piece::Black };
        proof {
            assert(r.grid() =~~= initial_grid());
        }
        r
    }

    /// Whose turn it is.
    pub fn turn(&self) -> (r: Piece)
        ensures
            r == self.spec_turn(),
    {
        self.turn
    }

    /// Give the turn to the other player without placing a stone.
    pub fn pass(&mut self)
        ensures
            old(self).well_formed() ==> final(self).well_formed(),
            final(self).grid() == old(self).grid(),
            final(self).spec_turn() == old(self).spec_turn().spec_opposite(),
    {
        self.turn = self.turn.opposite();
    }

    /// Read access to the rows of the board.
    pub fn squares(&self) -> (r: &Vec<Vec<Option<Piece>>>)
        ensures
            r.deep_view() == self.grid(),
    {
        &self.squares
    }

    /// Mutable access to the rows of the board. A caller that changes
    /// the rows' shape leaves the board outside `well_formed`, and the
    /// move operations no longer apply to it.
    pub fn squares_mut(&mut self) -> (r: &mut Vec<Vec<Option<Piece>>>)
        ensures
            r.deep_view() == old(self).grid(),
            final(self).grid() == final(r).deep_view(),
            final(self).spec_turn() == old(self).spec_turn(),
    {
        &mut self.squares
    }

    /// The cell at `(x, y)`, which must lie on the board.
    fn at(&self, x: i32, y: i32) -> (r: Option<Piece>)
        requires
            self.well_formed(),
            in_bounds(x as int, y as int),
        ensures
            r == cell(self.grid(), x as int, y as int),
    {
        let r = self.squares[x as usize][y as usize];
        proof {
            assert(self.grid()[x as int][y as int] == self.squares@[x as int]@[y as int]);
        }
        r
    }

    /// Write `v` into the cell at `(x, y)`.
    fn set_cell(&mut self, x: u8, y: u8, v: Option<Piece>)
        requires
            old(self).well_formed(),
            in_bounds(x as int, y as int),
        ensures
            final(self).well_formed(),
            final(self).grid() == old(self).grid().update(
                x as int,
                old(self).grid()[x as int].update(y as int, v),
            ),
            final(self).spec_turn() == old(self).spec_turn(),
    {
        let ghost g0 = self.grid();
        proof {
            assert(self.squares@.len() == 8);
            assert(self.grid()[x as int].len() == 8);
            assert(self.grid()[x as int] == self.squares@[x as int].deep_view());
            assert(self.squares@[x as int].deep_view().len() == self.squares@[x as int]@.len());
            assert(self.squares@[x as int]@.len() == 8);
        }
        let mut new_row: Vec<Option<Piece>> = Vec::new();
        let mut j: usize = 0;
        while j < 8
            invariant
                j <= 8,
                new_row.len() == j,
                self.squares@.len() == 8,
                self.squares@[x as int]@.len() == 8,
                in_bounds(x as int, y as int),
                g0 == self.grid(),
                forall|k: int| 0 <= k < j
                    ==> new_row@[k] == (if k == y as int { v } else { g0[x as int][k] }),
            decreases 8 - j,
        {
            let c = if j == y as usize { v } else { self.squares[x as usize][j] };
            proof {
                assert(self.squares@[x as int]@[j as int] == g0[x as int][j as int]);
            }
            new_row.push(c);
            j = j + 1;
        }
        self.squares[x as usize] = new_row;
        proof {
            assert(self.grid() =~~= g0.update(x as int, g0[x as int].update(y as int, v)));
        }
    }

    /// Append to `flips` every opponent stone on the run walked from
    /// `(x, y)` in direction `(dx, dy)`.
    fn collect_run(&self, x: u8, y: u8, dx: i8, dy: i8, piece: Piece, flips: &mut Vec<(u8, u8)>)
        requires
            self.well_formed(),
            is_dir(dx as int, dy as int),
            in_bounds(x as int, y as int),
        ensures
            forall|c: (u8, u8)| #![all_triggers]
                final(flips)@.contains(c) <==> old(flips)@.contains(c)
                    || on_run(self.grid(), x as int, y as int, dx as int, dy as int, piece,
                        c.0 as int, c.1 as int),
    {
        let ghost g = self.grid();
        let ghost start = flips@;
        let ghost mut pushed: Seq<(u8, u8)> = Seq::empty();
        let mut cx: i32 = x as i32;
        let mut cy: i32 = y as i32;
        loop
            invariant_except_break
                self.well_formed(),
                g == self.grid(),
                is_dir(dx as int, dy as int),
                in_bounds(cx as int, cy as int),
                forall|c: (u8, u8)|
                    #[trigger] flips@.contains(c) <==> start.contains(c) || pushed.contains(c),
                forall|c: (u8, u8)| #![all_triggers]
                    on_run(g, x as int, y as int, dx as int, dy as int, piece,
                        c.0 as int, c.1 as int)
                        <==> pushed.contains(c)
                            || on_run(g, cx as int, cy as int, dx as int, dy as int, piece,
                                c.0 as int, c.1 as int),
            ensures
                forall|c: (u8, u8)| #![all_triggers]
                    flips@.contains(c) <==> start.contains(c)
                        || on_run(g, x as int, y as int, dx as int, dy as int, piece,
                            c.0 as int, c.1 as int),
            decreases walk_measure(cx as int, cy as int, dx as int, dy as int),
        {
            let nx = cx + dx as i32;
            let ny = cy + dy as i32;
            if nx < 0 || ny < 0 || nx >= 8 || ny >= 8 {
                proof {
                    assert(forall|c: (u8, u8)| #![all_triggers]
                        !on_run(g, cx as int, cy as int, dx as int, dy as int, piece,
                            c.0 as int, c.1 as int));
                    assert forall|c: (u8, u8)| #![all_triggers]
                        flips@.contains(c) <==> start.contains(c)
                            || on_run(g, x as int, y as int, dx as int, dy as int, piece,
                                c.0 as int, c.1 as int) by {
                        assert(flips@.contains(c) <==> start.contains(c) || pushed.contains(c));
                        assert(on_run(g, x as int, y as int, dx as int, dy as int, piece,
                            c.0 as int, c.1 as int) <==> pushed.contains(c));
                    }
                }
                break;
            }
            let is_opp = match self.at(nx, ny) {
                Some(c) => c == piece.opposite(),
                None => false,
            };
            if !is_opp {
                proof {
                    assert(forall|c: (u8, u8)| #![all_triggers]
                        !on_run(g, cx as int, cy as int, dx as int, dy as int, piece,
                            c.0 as int, c.1 as int));
                    assert forall|c: (u8, u8)| #![all_triggers]
                        flips@.contains(c) <==> start.contains(c)
                            || on_run(g, x as int, y as int, dx as int, dy as int, piece,
                                c.0 as int, c.1 as int) by {
                        assert(flips@.contains(c) <==> start.contains(c) || pushed.contains(c));
                        assert(on_run(g, x as int, y as int, dx as int, dy as int, piece,
                            c.0 as int, c.1 as int) <==> pushed.contains(c));
                    }
                }
                break;
            }
            let e = (nx as u8, ny as u8);
            let ghost pre = flips@;
            flips.push(e);
            proof {
                assert(flips@[pre.len() as int] == e);
                assert forall|c: (u8, u8)| #[trigger] flips@.contains(c)
                    implies pre.contains(c) || c == e by {
                    let i = choose|i: int| 0 <= i < flips@.len() && flips@[i] == c;
                    if i < pre.len() {
                        assert(pre[i] == c);
                    }
                }
                assert forall|c: (u8, u8)| pre.contains(c) implies #[trigger] flips@.contains(c) by {
                    let i = choose|i: int| 0 <= i < pre.len() && pre[i] == c;
                    assert(flips@[i] == c);
                }
                assert(flips@.contains(e));
                // one unfolding of the run from the old position
                assert forall|c: (u8, u8)| #![all_triggers]
                    on_run(g, cx as int, cy as int, dx as int, dy as int, piece,
                        c.0 as int, c.1 as int)
                        <==> (c == e
                            || on_run(g, nx as int, ny as int, dx as int, dy as int, piece,
                                c.0 as int, c.1 as int)) by {
                    assert(cell(g, nx as int, ny as int) == Some(piece.spec_opposite()));
                    if c == e {
                        assert(on_run(g, cx as int, cy as int, dx as int, dy as int, piece,
                            c.0 as int, c.1 as int));
                    }
                }
                let pre_pushed = pushed;
                pushed = pushed.push(e);
                assert forall|c: (u8, u8)| #[trigger] pushed.contains(c)
                    implies pre_pushed.contains(c) || c == e by {
                    let i = choose|i: int| 0 <= i < pushed.len() && pushed[i] == c;
                    if i < pre_pushed.len() {
                        assert(pre_pushed[i] == c);
                    }
                }
                assert forall|c: (u8, u8)| pre_pushed.contains(c)
                    implies #[trigger] pushed.contains(c) by {
                    let i = choose|i: int| 0 <= i < pre_pushed.len() && pre_pushed[i] == c;
                    assert(pushed[i] == c);
                }
                assert(pushed[pushed.len() - 1] == e);
                assert(pushed.contains(e));
            }
            cx = nx;
            cy = ny;
        }
    }

    /// Walk from `(x, y)` in direction `(dx, dy)` and report whether the
    /// line closes: one or more opponent stones and then an own stone.
    fn direction_affected(&self, x: u8, y: u8, dx: i8, dy: i8, piece: Piece) -> (r: bool)
        requires
            self.well_formed(),
            is_dir(dx as int, dy as int),
        ensures
            r == dir_affected(self.grid(), x as int, y as int, dx as int, dy as int, piece),
    {
        let g = Ghost(self.grid());
        let mut cx: i32 = x as i32;
        let mut cy: i32 = y as i32;
        let ghost mut steps: int = 0;
        loop
            invariant
                self.well_formed(),
                is_dir(dx as int, dy as int),
                steps >= 0,
                if dx == 1 { cx as int == x as int + steps }
                else if dx == -1 { cx as int == x as int - steps }
                else { cx as int == x as int },
                if dy == 1 { cy as int == y as int + steps }
                else if dy == -1 { cy as int == y as int - steps }
                else { cy as int == y as int },
                steps > 0 ==> in_bounds(cx as int, cy as int),
                g@ == self.grid(),
                opp_run_len(g@, x as int, y as int, dx as int, dy as int, piece)
                    == steps + opp_run_len(g@, cx as int, cy as int, dx as int, dy as int, piece),
                run_end(g@, x as int, y as int, dx as int, dy as int, piece)
                    == run_end(g@, cx as int, cy as int, dx as int, dy as int, piece),
            decreases walk_measure(cx as int, cy as int, dx as int, dy as int),
        {
            let nx = cx + dx as i32;
            let ny = cy + dy as i32;
            if nx < 0 || ny < 0 || nx >= 8 || ny >= 8 {
                proof {
                    assert(opp_run_len(g@, cx as int, cy as int, dx as int, dy as int, piece) == 0);
                    assert(run_end(g@, cx as int, cy as int, dx as int, dy as int, piece)
                        == (nx as int, ny as int));
                }
                return false;
            }
            let here = self.at(nx, ny);
            let is_opp = match here {
                Some(c) => c == piece.opposite(),
                None => false,
            };
            let is_own = match here {
                Some(c) => c == piece,
                None => false,
            };
            if is_opp {
                proof {
                    assert(opp_run_len(g@, cx as int, cy as int, dx as int, dy as int, piece)
                        == 1 + opp_run_len(g@, nx as int, ny as int, dx as int, dy as int, piece));
                    assert(run_end(g@, cx as int, cy as int, dx as int, dy as int, piece)
                        == run_end(g@, nx as int, ny as int, dx as int, dy as int, piece));
                    steps = steps + 1;
                }
                cx = nx;
                cy = ny;
            } else if is_own {
                proof {
                    assert(piece.spec_opposite() != piece);
                    assert(opp_run_len(g@, cx as int, cy as int, dx as int, dy as int, piece) == 0);
                    assert(run_end(g@, cx as int, cy as int, dx as int, dy as int, piece)
                        == (nx as int, ny as int));
                }
                let moved = cx != x as i32 || cy != y as i32;
                proof {
                    assert(moved == (steps > 0));
                    assert(opp_run_len(g@, x as int, y as int, dx as int, dy as int, piece) == steps);
                }
                return moved;
            } else {
                proof {
                    assert(here is None);
                    assert(opp_run_len(g@, cx as int, cy as int, dx as int, dy as int, piece) == 0);
                    assert(run_end(g@, cx as int, cy as int, dx as int, dy as int, piece)
                        == (nx as int, ny as int));
                }
                return false;
            }
        }
    }

    /// Returns a vector of directions that would be affected, should the
    /// piece be placed at the square in question: every closed direction
    /// once and nothing else.
    ///
    /// Together with `can_place` this states the law that a position is
    /// playable exactly when the vector of affected directions is not
    /// empty.
    pub fn affected_directions(&self, pos: (u8, u8), piece: Piece) -> (r: Vec<(i8, i8)>)
        requires
            self.well_formed(),
        ensures
            forall|i: int| 0 <= i < r@.len()
                ==> is_dir((#[trigger] r@[i]).0 as int, r@[i].1 as int)
                    && dir_affected(self.grid(), pos.0 as int, pos.1 as int,
                        r@[i].0 as int, r@[i].1 as int, piece),
            forall|dx: int, dy: int|
                is_dir(dx, dy) && dir_affected(self.grid(), pos.0 as int, pos.1 as int, dx, dy, piece)
                    ==> r@.contains((dx as i8, dy as i8)),
            forall|i: int, j: int| 0 <= i < j < r@.len() ==> r@[i] != r@[j],
    {
        let (x, y) = pos;
        let mut dirs: Vec<(i8, i8)> = Vec::new();
        dirs.push((-1, 0));
        dirs.push((-1, -1));
        dirs.push((0, -1));
        dirs.push((1, -1));
        dirs.push((1, 0));
        dirs.push((1, 1));
        dirs.push((0, 1));
        dirs.push((-1, 1));
        proof {
            assert(forall|k: int| 0 <= k < 8
                ==> is_dir((#[trigger] dirs@[k]).0 as int, dirs@[k].1 as int));
            assert(forall|k: int, l: int| 0 <= k < l < 8 ==> dirs@[k] != dirs@[l]);
            assert forall|dx: int, dy: int| is_dir(dx, dy)
                implies exists|k: int| 0 <= k < 8 && #[trigger] dirs@[k] == (dx as i8, dy as i8) by {
                let d = (dx as i8, dy as i8);
                if d == (-1i8, 0i8) { assert(dirs@[0] == d); }
                else if d == (-1i8, -1i8) { assert(dirs@[1] == d); }
                else if d == (0i8, -1i8) { assert(dirs@[2] == d); }
                else if d == (1i8, -1i8) { assert(dirs@[3] == d); }
                else if d == (1i8, 0i8) { assert(dirs@[4] == d); }
                else if d == (1i8, 1i8) { assert(dirs@[5] == d); }
                else if d == (0i8, 1i8) { assert(dirs@[6] == d); }
                else { assert(dirs@[7] == d); }
            }
        }
        let mut r: Vec<(i8, i8)> = Vec::new();
        let mut i: usize = 0;
        while i < 8
            invariant
                self.well_formed(),
                i <= 8,
                dirs@.len() == 8,
                forall|k: int| 0 <= k < 8
                    ==> is_dir((#[trigger] dirs@[k]).0 as int, dirs@[k].1 as int),
                forall|k: int, l: int| 0 <= k < l < 8 ==> dirs@[k] != dirs@[l],
                forall|k: int| 0 <= k < r@.len()
                    ==> is_dir((#[trigger] r@[k]).0 as int, r@[k].1 as int)
                        && dir_affected(self.grid(), x as int, y as int,
                            r@[k].0 as int, r@[k].1 as int, piece),
                forall|k: int| 0 <= k < i
                    && dir_affected(self.grid(), x as int, y as int,
                        (#[trigger] dirs@[k]).0 as int, dirs@[k].1 as int, piece)
                    ==> r@.contains(dirs@[k]),
                forall|k: int| 0 <= k < r@.len()
                    ==> exists|m: int| 0 <= m < i && #[trigger] r@[k] == dirs@[m],
                forall|k: int, l: int| 0 <= k < l < r@.len() ==> r@[k] != r@[l],
            decreases 8 - i,
        {
            let d = dirs[i];
            if self.direction_affected(x, y, d.0, d.1, piece) {
                let ghost old_r = r@;
                r.push(d);
                proof {
                    assert(r@[old_r.len() as int] == d);
                    assert(r@.contains(d));
                    assert forall|p: (i8, i8)| old_r.contains(p) implies r@.contains(p) by {
                        let k = choose|k: int| 0 <= k < old_r.len() && old_r[k] == p;
                        assert(r@[k] == p);
                    }
                    // the new direction was not pushed before: every
                    // earlier element comes from an earlier, distinct slot
                    assert forall|k: int, l: int| 0 <= k < l < r@.len()
                        implies r@[k] != r@[l] by {
                        if l == old_r.len() {
                            let m = choose|m: int| 0 <= m < i && old_r[k] == dirs@[m];
                            assert(dirs@[m] != dirs@[i as int]);
                        } else {
                            assert(r@[k] == old_r[k] && r@[l] == old_r[l]);
                        }
                    }
                    assert forall|k: int| 0 <= k < r@.len()
                        implies exists|m: int| 0 <= m < i + 1 && #[trigger] r@[k] == dirs@[m] by {
                        if k < old_r.len() {
                            let m = choose|m: int| 0 <= m < i && old_r[k] == dirs@[m];
                            assert(r@[k] == dirs@[m]);
                        } else {
                            assert(r@[k] == dirs@[i as int]);
                        }
                    }
                }
            }
            i = i + 1;
        }
        proof {
            assert forall|dx: int, dy: int|
                is_dir(dx, dy)
                    && dir_affected(self.grid(), x as int, y as int, dx, dy, piece)
                implies r@.contains((dx as i8, dy as i8)) by {
                let k = choose|k: int| 0 <= k < 8 && #[trigger] dirs@[k] == (dx as i8, dy as i8);
                assert(dirs@[k].0 as int == dx && dirs@[k].1 as int == dy);
            }
        }
        r
    }

    /// Check if a stone with the given colour can be placed at the point
    /// in question: true exactly when at least one direction is affected.
    pub fn can_place(&self, pos: (u8, u8), piece: Piece) -> (r: bool)
        requires
            self.well_formed(),
        ensures
            r == spec_can_place(self.grid(), pos.0 as int, pos.1 as int, piece),
    {
        let dirs = self.affected_directions(pos, piece);
        if dirs.len() > 0 {
            proof {
                let d = dirs@[0];
                assert(is_dir(d.0 as int, d.1 as int)
                    && dir_affected(self.grid(), pos.0 as int, pos.1 as int, d.0 as int, d.1 as int,
                        piece));
            }
            true
        } else {
            proof {
                assert forall|dx: int, dy: int| !(is_dir(dx, dy)
                    && dir_affected(self.grid(), pos.0 as int, pos.1 as int, dx, dy, piece)) by {
                    if is_dir(dx, dy)
                        && dir_affected(self.grid(), pos.0 as int, pos.1 as int, dx, dy, piece) {
                        assert(dirs@.contains((dx as i8, dy as i8)));
                    }
                }
            }
            false
        }
    }

    /// Gets all opportunities for the provided piece: exactly the empty
    /// squares where the piece could be placed, in strictly increasing
    /// row-major order, so no square repeats. It is irrelevant whose
    /// turn it is.
    pub fn opportunities(&self, piece: Piece) -> (r: Vec<(u8, u8)>)
        requires
            self.well_formed(),
        ensures
            forall|i: int| 0 <= i < r@.len() ==> {
                let (cx, cy) = #[trigger] r@[i];
                &&& in_bounds(cx as int, cy as int)
                &&& cell(self.grid(), cx as int, cy as int) is None
                &&& spec_can_place(self.grid(), cx as int, cy as int, piece)
            },
            forall|cx: int, cy: int|
                in_bounds(cx, cy) && cell(self.grid(), cx, cy) is None
                    && spec_can_place(self.grid(), cx, cy, piece)
                    ==> r@.contains((cx as u8, cy as u8)),
            forall|i: int, j: int| 0 <= i < j < r@.len()
                ==> row_major_lt(#[trigger] r@[i], #[trigger] r@[j]),
    {
        let mut r: Vec<(u8, u8)> = Vec::new();
        let mut x: u8 = 0;
        while x < 8
            invariant
                self.well_formed(),
                x <= 8,
                forall|i: int| 0 <= i < r@.len() ==> {
                    let (cx, cy) = #[trigger] r@[i];
                    &&& in_bounds(cx as int, cy as int)
                    &&& cell(self.grid(), cx as int, cy as int) is None
                    &&& spec_can_place(self.grid(), cx as int, cy as int, piece)
                },
                forall|cx: int, cy: int|
                    0 <= cx < x && 0 <= cy < 8 && cell(self.grid(), cx, cy) is None
                        && spec_can_place(self.grid(), cx, cy, piece)
                        ==> r@.contains((cx as u8, cy as u8)),
                forall|i: int, j: int| 0 <= i < j < r@.len()
                    ==> row_major_lt(#[trigger] r@[i], #[trigger] r@[j]),
                forall|i: int| 0 <= i < r@.len() ==> (#[trigger] r@[i]).0 < x,
            decreases 8 - x,
        {
            let mut y: u8 = 0;
            while y < 8
                invariant
                    self.well_formed(),
                    x < 8,
                    y <= 8,
                    forall|i: int| 0 <= i < r@.len() ==> {
                        let (cx, cy) = #[trigger] r@[i];
                        &&& in_bounds(cx as int, cy as int)
                        &&& cell(self.grid(), cx as int, cy as int) is None
                        &&& spec_can_place(self.grid(), cx as int, cy as int, piece)
                    },
                    forall|cx: int, cy: int|
                        0 <= cx < x && 0 <= cy < 8 && cell(self.grid(), cx, cy) is None
                            && spec_can_place(self.grid(), cx, cy, piece)
                            ==> r@.contains((cx as u8, cy as u8)),
                    forall|cy: int|
                        0 <= cy < y && cell(self.grid(), x as int, cy) is None
                            && spec_can_place(self.grid(), x as int, cy, piece)
                            ==> r@.contains((x, cy as u8)),
                    forall|i: int, j: int| 0 <= i < j < r@.len()
                        ==> row_major_lt(#[trigger] r@[i], #[trigger] r@[j]),
                    forall|i: int| 0 <= i < r@.len()
                        ==> row_major_lt(#[trigger] r@[i], (x, y)),
                decreases 8 - y,
            {
                let empty = match self.at(x as i32, y as i32) {
                    None => true,
                    Some(_) => false,
                };
                if empty && self.can_place((x, y), piece) {
                    let ghost old_r = r@;
                    r.push((x, y));
                    proof {
                        assert(r@[old_r.len() as int] == (x, y));
                        assert(r@.contains((x, y)));
                        assert forall|p: (u8, u8)| old_r.contains(p) implies r@.contains(p) by {
                            let i = choose|i: int| 0 <= i < old_r.len() && old_r[i] == p;
                            assert(r@[i] == p);
                        }
                    }
                }
                y = y + 1;
            }
            x = x + 1;
        }
        r
    }

    /// Place a stone of colour `piece` at `pos`.
    ///
    /// The move fails and is a no-op when it is not `piece`'s turn, the
    /// position is off the board or occupied, or no direction is
    /// affected. On success every opponent stone on a closed line turns
    /// to `piece`, the stone itself is placed, the turn flips, and the
    /// count of `piece`'s stones grows by one plus the number of flipped
    /// stones, of which there is at least one.
    pub fn place(&mut self, pos: (u8, u8), piece: Piece) -> (r: bool)
        requires
            old(self).well_formed(),
        ensures
            final(self).well_formed(),
            r == (old(self).spec_turn() == piece && in_bounds(pos.0 as int, pos.1 as int)
                && cell(old(self).grid(), pos.0 as int, pos.1 as int) is None
                && spec_can_place(old(self).grid(), pos.0 as int, pos.1 as int, piece)),
            !r ==> final(self).grid() == old(self).grid()
                && final(self).spec_turn() == old(self).spec_turn(),
            r ==> final(self).spec_turn() == piece.spec_opposite(),
            r ==> cell(final(self).grid(), pos.0 as int, pos.1 as int) == Some(piece),
            r ==> forall|cx: int, cy: int|
                in_bounds(cx, cy) && !(cx == pos.0 as int && cy == pos.1 as int)
                    ==> cell(final(self).grid(), cx, cy)
                        == (if spec_flipped(old(self).grid(), pos.0 as int, pos.1 as int, piece,
                                cx, cy) {
                            Some(piece)
                        } else {
                            cell(old(self).grid(), cx, cy)
                        }),
            r ==> grid_count(final(self).grid(), piece)
                == grid_count(old(self).grid(), piece)
                    + grid_diff(old(self).grid(), final(self).grid()),
            r ==> grid_diff(old(self).grid(), final(self).grid()) >= 2,
    {
        let (x, y) = pos;
        if self.turn != piece {
            return false;
        }
        if x >= 8 || y >= 8 {
            return false;
        }
        let occupied = match self.at(x as i32, y as i32) {
            Some(_) => true,
            None => false,
        };
        if occupied {
            return false;
        }
        let dirs = self.affected_directions((x, y), piece);
        if dirs.len() == 0 {
            proof {
                if spec_can_place(self.grid(), x as int, y as int, piece) {
                    let (dx, dy) = choose|dx: int, dy: int|
                        is_dir(dx, dy)
                            && dir_affected(self.grid(), x as int, y as int, dx, dy, piece);
                    assert(dirs@.contains((dx as i8, dy as i8)));
                }
            }
            return false;
        }
        let ghost g0 = self.grid();
        proof {
            let d0 = dirs@[0];
            assert(is_dir(d0.0 as int, d0.1 as int)
                && dir_affected(g0, x as int, y as int, d0.0 as int, d0.1 as int, piece));
            assert(spec_can_place(g0, x as int, y as int, piece));
        }

        // First walk every affected direction and collect the stones to
        // flip; only then mutate, so that every walk reads the original
        // position.
        let mut flips: Vec<(u8, u8)> = Vec::new();
        let mut di: usize = 0;
        while di < dirs.len()
            invariant
                self.well_formed(),
                g0 == self.grid(),
                in_bounds(x as int, y as int),
                di <= dirs@.len(),
                forall|k: int| 0 <= k < dirs@.len()
                    ==> is_dir((#[trigger] dirs@[k]).0 as int, dirs@[k].1 as int)
                        && dir_affected(g0, x as int, y as int,
                            dirs@[k].0 as int, dirs@[k].1 as int, piece),
                forall|c: (u8, u8)| #![all_triggers]
                    flips@.contains(c) <==> exists|k: int|
                        0 <= k < di && on_run(g0, x as int, y as int,
                            (#[trigger] dirs@[k]).0 as int, dirs@[k].1 as int, piece,
                            c.0 as int, c.1 as int),
            decreases dirs@.len() - di,
        {
            let d = dirs[di];
            let ghost pre = flips@;
            self.collect_run(x, y, d.0, d.1, piece, &mut flips);
            proof {
                assert forall|c: (u8, u8)| #![all_triggers]
                    flips@.contains(c) implies exists|k: int|
                        0 <= k < di + 1 && on_run(g0, x as int, y as int,
                            (#[trigger] dirs@[k]).0 as int, dirs@[k].1 as int, piece,
                            c.0 as int, c.1 as int) by {
                    if pre.contains(c) {
                        let k = choose|k: int|
                            0 <= k < di && on_run(g0, x as int, y as int,
                                (#[trigger] dirs@[k]).0 as int, dirs@[k].1 as int, piece,
                                c.0 as int, c.1 as int);
                        assert(0 <= k < di + 1 && on_run(g0, x as int, y as int,
                            dirs@[k].0 as int, dirs@[k].1 as int, piece,
                            c.0 as int, c.1 as int));
                    } else {
                        assert(on_run(g0, x as int, y as int,
                            dirs@[di as int].0 as int, dirs@[di as int].1 as int, piece,
                            c.0 as int, c.1 as int));
                    }
                }
                assert forall|c: (u8, u8)| #![all_triggers]
                    (exists|k: int|
                        0 <= k < di + 1 && on_run(g0, x as int, y as int,
                            (#[trigger] dirs@[k]).0 as int, dirs@[k].1 as int, piece,
                            c.0 as int, c.1 as int)) implies flips@.contains(c) by {
                    let k = choose|k: int|
                        0 <= k < di + 1 && on_run(g0, x as int, y as int,
                            (#[trigger] dirs@[k]).0 as int, dirs@[k].1 as int, piece,
                            c.0 as int, c.1 as int);
                    if k < di {
                        assert(pre.contains(c));
                    }
                }
            }
            di = di + 1;
        }
        proof {
            assert forall|c: (u8, u8)| #![all_triggers]
                flips@.contains(c) <==> spec_flipped(g0, x as int, y as int, piece,
                    c.0 as int, c.1 as int) by {
                if flips@.contains(c) {
                    let k = choose|k: int|
                        0 <= k < dirs@.len() && on_run(g0, x as int, y as int,
                            (#[trigger] dirs@[k]).0 as int, dirs@[k].1 as int, piece,
                            c.0 as int, c.1 as int);
                    assert(spec_flipped(g0, x as int, y as int, piece, c.0 as int, c.1 as int));
                }
                if spec_flipped(g0, x as int, y as int, piece, c.0 as int, c.1 as int) {
                    let (dx, dy) = choose|dx: int, dy: int|
                        is_dir(dx, dy) && dir_affected(g0, x as int, y as int, dx, dy, piece)
                            && on_run(g0, x as int, y as int, dx, dy, piece,
                                c.0 as int, c.1 as int);
                    assert(dirs@.contains((dx as i8, dy as i8)));
                    let k = choose|k: int|
                        0 <= k < dirs@.len() && dirs@[k] == (dx as i8, dy as i8);
                    assert(on_run(g0, x as int, y as int,
                        dirs@[k].0 as int, dirs@[k].1 as int, piece, c.0 as int, c.1 as int));
                }
            }
        }

        // Apply the flips.
        let mut k: usize = 0;
        while k < flips.len()
            invariant
                self.well_formed(),
                k <= flips@.len(),
                grid_wf(g0),
                self.spec_turn() == piece,
                in_bounds(x as int, y as int),
                cell(g0, x as int, y as int) is None,
                forall|c: (u8, u8)| #![all_triggers]
                    flips@.contains(c) <==> spec_flipped(g0, x as int, y as int, piece,
                        c.0 as int, c.1 as int),
                forall|cx: int, cy: int|
                    in_bounds(cx, cy) ==> #[trigger] cell(self.grid(), cx, cy)
                        == (if flips@.take(k as int).contains((cx as u8, cy as u8)) {
                            Some(piece)
                        } else {
                            cell(g0, cx, cy)
                        }),
            decreases flips@.len() - k,
        {
            let f = flips[k];
            proof {
                assert(flips@.contains(f));
                assert(spec_flipped(g0, x as int, y as int, piece, f.0 as int, f.1 as int));
                let (dx, dy) = choose|dx: int, dy: int|
                    is_dir(dx, dy) && dir_affected(g0, x as int, y as int, dx, dy, piece)
                        && on_run(g0, x as int, y as int, dx, dy, piece, f.0 as int, f.1 as int);
                lemma_on_run_cell(g0, x as int, y as int, dx, dy, piece, f.0 as int, f.1 as int);
                assert(in_bounds(f.0 as int, f.1 as int));
            }
            let ghost gk = self.grid();
            self.set_cell(f.0, f.1, Some(piece));
            proof {
                assert forall|cx: int, cy: int|
                    in_bounds(cx, cy) implies #[trigger] cell(self.grid(), cx, cy)
                        == (if flips@.take(k as int + 1).contains((cx as u8, cy as u8)) {
                            Some(piece)
                        } else {
                            cell(g0, cx, cy)
                        }) by {
                    let cu = (cx as u8, cy as u8);
                    assert(flips@.take(k as int + 1)[k as int] == f);
                    if cx == f.0 as int && cy == f.1 as int {
                        assert(flips@.take(k as int + 1).contains(cu));
                        assert(cell(self.grid(), cx, cy) == Some(piece));
                    } else {
                        assert(cell(self.grid(), cx, cy) == cell(gk, cx, cy));
                        if flips@.take(k as int + 1).contains(cu) {
                            let i = choose|i: int|
                                0 <= i < k as int + 1
                                    && #[trigger] flips@.take(k as int + 1)[i] == cu;
                            assert(i < k as int);
                            assert(flips@.take(k as int)[i] == cu);
                            assert(flips@.take(k as int).contains(cu));
                        } else {
                            if flips@.take(k as int).contains(cu) {
                                let i = choose|i: int|
                                    0 <= i < k as int
                                        && #[trigger] flips@.take(k as int)[i] == cu;
                                assert(flips@.take(k as int + 1)[i] == cu);
                            }
                            assert(!flips@.take(k as int).contains(cu));
                        }
                    }
                }
            }
            k = k + 1;
        }
        let ghost g1 = self.grid();
        proof {
            assert(flips@.take(flips@.len() as int) =~= flips@);
            assert forall|cx: int, cy: int|
                in_bounds(cx, cy) implies #[trigger] cell(g1, cx, cy)
                    == (if spec_flipped(g0, x as int, y as int, piece, cx, cy) {
                        Some(piece)
                    } else {
                        cell(g0, cx, cy)
                    }) by {
                let cu = (cx as u8, cy as u8);
                assert(cell(g1, cx, cy)
                    == (if flips@.take(flips@.len() as int).contains(cu) {
                        Some(piece)
                    } else {
                        cell(g0, cx, cy)
                    }));
                assert(flips@.contains(cu) <==> spec_flipped(g0, x as int, y as int, piece,
                    cx, cy));
            }
        }

        // Place the actual stone and give the turn to the other player.
        self.set_cell(x, y, Some(piece));
        self.turn = self.turn.opposite();

        proof {
            let gf = self.grid();
            assert(gf == g1.update(x as int, g1[x as int].update(y as int, Some(piece))));
            assert forall|cx: int, cy: int|
                in_bounds(cx, cy) && !(cx == x as int && cy == y as int)
                    implies #[trigger] cell(gf, cx, cy) == cell(g1, cx, cy) by {
                if cx == x as int {
                    assert(gf[cx] == g1[x as int].update(y as int, Some(piece)));
                    assert(gf[cx][cy] == g1[cx][cy]);
                } else {
                    assert(gf[cx] == g1[cx]);
                }
            }
            assert forall|cx: int, cy: int|
                in_bounds(cx, cy) && !(cx == x as int && cy == y as int)
                    implies #[trigger] cell(gf, cx, cy)
                        == (if spec_flipped(g0, x as int, y as int, piece, cx, cy) {
                            Some(piece)
                        } else {
                            cell(g0, cx, cy)
                        }) by {
                assert(cell(gf, cx, cy) == cell(g1, cx, cy));
            }
            assert(cell(gf, x as int, y as int) == Some(piece));
            // the stone count of `piece` grows by the number of changed cells
            assert forall|i: int, j: int| 0 <= i < g0.len() && 0 <= j < g0[i].len()
                implies #[trigger] gf[i][j] == g0[i][j]
                    || (g0[i][j] != Some(piece) && gf[i][j] == Some(piece)) by {
                assert(cell(gf, i, j) == gf[i][j]);
                assert(cell(g0, i, j) == g0[i][j]);
                if i == x as int && j == y as int {
                    assert(gf[i][j] == Some(piece));
                } else if spec_flipped(g0, x as int, y as int, piece, i, j) {
                    let (dx, dy) = choose|dx: int, dy: int|
                        is_dir(dx, dy) && dir_affected(g0, x as int, y as int, dx, dy, piece)
                            && on_run(g0, x as int, y as int, dx, dy, piece, i, j);
                    lemma_on_run_cell(g0, x as int, y as int, dx, dy, piece, i, j);
                    assert(g0[i][j] == Some(piece.spec_opposite()));
                    assert(gf[i][j] == Some(piece));
                }
            }
            lemma_grid_count_change(g0, gf, piece);
            // at least one stone flips beside the placed one
            let d0 = dirs@[0];
            let dx0 = d0.0 as int;
            let dy0 = d0.1 as int;
            assert(dir_affected(g0, x as int, y as int, dx0, dy0, piece));
            assert(opp_run_len(g0, x as int, y as int, dx0, dy0, piece) >= 1);
            let fx = x as int + dx0;
            let fy = y as int + dy0;
            assert(in_bounds(fx, fy) && cell(g0, fx, fy) == Some(piece.spec_opposite()));
            assert(on_run(g0, x as int, y as int, dx0, dy0, piece, fx, fy));
            assert(spec_flipped(g0, x as int, y as int, piece, fx, fy));
            assert(cell(gf, fx, fy) == Some(piece));
            assert(g0[fx][fy] != gf[fx][fy]);
            assert(g0[x as int][y as int] != gf[x as int][y as int]);
            assert(!(fx == x as int && fy == y as int));
            lemma_grid_diff_two(g0, gf, x as int, y as int, fx, fy);
        }
        true
    }

}

} // verus!
