use vstd::prelude::*;
use vstd::set_lib::*;
use crate::geometry::{dir_dx, dir_dy, direction_dx, direction_dy, Pos};
use xorshift::Xorshift128;

verus! {

/// A wall beside cell `(y, x)`. With `d == 0` it lies above the cell (between
/// rows `y - 1` and `y`); with `d == 1` it lies left of it (between columns
/// `x - 1` and `x`).
#[derive(PartialEq, Eq, Structural, Debug, Clone, Copy)]
pub struct WallPos {
    pub y: i8,
    pub x: i8,
    pub d: i8,
}

/// A board: its size, its walls, the slide distance of each cell in each
/// direction, and the cells of the four robots.
#[derive(Debug)]
pub struct Board {
    pub w: usize,
    pub h: usize,
    pub walls: Vec<WallPos>,
    pub walldist: Vec<Vec<Vec<usize>>>,
    pub robots: Vec<Pos>,
}

pub open spec fn in_grid(h: int, w: int, y: int, x: int) -> bool {
    0 <= y < h && 0 <= x < w
}

/// Free cells from `(y, x)` to the border in direction `d`.
pub open spec fn border_dist(h: int, w: int, y: int, x: int, d: int) -> int {
    if d == 0 {
        h - 1 - y
    } else if d == 1 {
        w - 1 - x
    } else if d == 2 {
        y
    } else {
        x
    }
}

/// Whether wall `wl` stands in the way of a slide from `(y, x)` in direction `d`.
pub open spec fn wall_blocks(wl: WallPos, y: int, x: int, d: int) -> bool {
    ||| (d == 0 && wl.d == 0 && wl.x == x && wl.y > y)
    ||| (d == 2 && wl.d == 0 && wl.x == x && wl.y <= y)
    ||| (d == 1 && wl.d == 1 && wl.y == y && wl.x > x)
    ||| (d == 3 && wl.d == 1 && wl.y == y && wl.x <= x)
}

/// Free cells from `(y, x)` to wall `wl` in direction `d`, when it blocks.
pub open spec fn wall_gap(wl: WallPos, y: int, x: int, d: int) -> int {
    if d == 0 {
        wl.y - 1 - y
    } else if d == 2 {
        y - wl.y
    } else if d == 1 {
        wl.x - 1 - x
    } else {
        x - wl.x
    }
}

/// Free cells from `(y, x)` in direction `d` before the first wall of
/// `walls` or the border.
pub open spec fn wall_dist(walls: Seq<WallPos>, h: int, w: int, y: int, x: int, d: int) -> int
    decreases walls.len(),
{
    if walls.len() == 0 {
        border_dist(h, w, y, x, d)
    } else {
        let r = wall_dist(walls.drop_last(), h, w, y, x, d);
        let wl = walls.last();
        if wall_blocks(wl, y, x, d) && wall_gap(wl, y, x, d) < r {
            wall_gap(wl, y, x, d)
        } else {
            r
        }
    }
}

/// A wall that lies inside the grid, between two of its cells.
pub open spec fn wall_wf(wl: WallPos, h: int, w: int) -> bool {
    ||| (wl.d == 0 && 0 < wl.y < h && 0 <= wl.x < w)
    ||| (wl.d == 1 && 0 <= wl.y < h && 0 < wl.x < w)
}

/// The set of cells of an `h` by `w` grid.
pub open spec fn grid_cells(h: int, w: int) -> Set<(int, int)> {
    Set::new(|c: (int, int)| in_grid(h, w, c.0, c.1))
}

proof fn lemma_row_cells(y: int, w: int)
    requires
        w >= 0,
    ensures
        Set::new(|c: (int, int)| c.0 == y && 0 <= c.1 < w).finite(),
        Set::new(|c: (int, int)| c.0 == y && 0 <= c.1 < w).len() <= w,
    decreases w,
{
    let s = Set::new(|c: (int, int)| c.0 == y && 0 <= c.1 < w);
    if w == 0 {
        assert(s =~= Set::empty());
    } else {
        lemma_row_cells(y, w - 1);
        let t = Set::new(|c: (int, int)| c.0 == y && 0 <= c.1 < w - 1);
        assert(s =~= t.insert((y, w - 1)));
    }
}

/// The grid has finitely many cells, at most `h * w`.
pub(crate) proof fn lemma_grid_cells(h: int, w: int)
    requires
        h >= 0,
        w >= 0,
    ensures
        grid_cells(h, w).finite(),
        grid_cells(h, w).len() <= h * w,
    decreases h,
{
    if h == 0 {
        assert(grid_cells(h, w) =~= Set::empty());
    } else {
        lemma_grid_cells(h - 1, w);
        lemma_row_cells(h - 1, w);
        let row = Set::new(|c: (int, int)| c.0 == h - 1 && 0 <= c.1 < w);
        assert(grid_cells(h, w) =~= grid_cells(h - 1, w).union(row));
        lemma_len_union(grid_cells(h - 1, w), row);
        assert((h - 1) * w + w == h * w) by (nonlinear_arith);
    }
}

/// The xorshift128+ generator that draws the board.
#[verifier::external_type_specification]
#[verifier::external_body]
pub struct ExXorshift128(Xorshift128);

/// Relies on `Rng::gen_range` (rand 0.4, re-exported by the rand 0.3 that
/// `Xorshift128` implements):
/// a value in `[low, high)`; it panics when `low >= high`.
#[verifier::external_body]
fn gen_range(rng: &mut Xorshift128, low: usize, high: usize) -> (r: usize)
    requires
        low < high,
    ensures
        low <= r < high,
{
    xorshift::Rng::gen_range(rng, low, high)
}

/// How many cells a robot is drawn at before the first free cell is taken.
pub const PLACEMENT_TRIES: usize = 100000;

/// Whether no robot of `robots` stands on `p`.
pub fn is_free(robots: &Vec<Pos>, p: Pos) -> (r: bool)
    ensures
        r == (forall|j: int| 0 <= j < robots@.len() ==> robots@[j] != p),
{
    let mut j: usize = 0;
    while j < robots.len()
        invariant
            j <= robots@.len(),
            forall|k: int| 0 <= k < j ==> robots@[k] != p,
        decreases robots@.len() - j,
    {
        if robots[j] == p {
            return false;
        }
        j = j + 1;
    }
    true
}

/// A cell of the grid on which no robot of `robots` stands.
fn spare_cell(h: usize, w: usize, robots: &Vec<Pos>) -> (p: Pos)
    requires
        1 <= h <= 127,
        1 <= w <= 127,
        h * w >= 4,
        robots@.len() < 4,
    ensures
        in_grid(h as int, w as int, p.y as int, p.x as int),
        forall|j: int| 0 <= j < robots@.len() ==> robots@[j] != p,
{
    let (c0, c1, c2, c3) = if w >= 4 {
        (Pos { y: 0, x: 0 }, Pos { y: 0, x: 1 }, Pos { y: 0, x: 2 }, Pos { y: 0, x: 3 })
    } else if h >= 4 {
        (Pos { y: 0, x: 0 }, Pos { y: 1, x: 0 }, Pos { y: 2, x: 0 }, Pos { y: 3, x: 0 })
    } else {
        assert(h >= 2 && w >= 2) by (nonlinear_arith)
            requires
                1 <= h <= 3,
                1 <= w <= 3,
                h * w >= 4,
        ;
        (Pos { y: 0, x: 0 }, Pos { y: 0, x: 1 }, Pos { y: 1, x: 0 }, Pos { y: 1, x: 1 })
    };
    if is_free(robots, c0) {
        return c0;
    }
    if is_free(robots, c1) {
        return c1;
    }
    if is_free(robots, c2) {
        return c2;
    }
    proof {
        let n = robots@.len();
        let j0 = choose|j: int| 0 <= j < n && robots@[j] == c0;
        let j1 = choose|j: int| 0 <= j < n && robots@[j] == c1;
        let j2 = choose|j: int| 0 <= j < n && robots@[j] == c2;
        if !(forall|j: int| 0 <= j < n ==> robots@[j] != c3) {
            let j3 = choose|j: int| 0 <= j < n && robots@[j] == c3;
            assert(j0 != j1 && j0 != j2 && j0 != j3 && j1 != j2 && j1 != j3 && j2 != j3);
        }
    }
    c3
}

/// A cell drawn at random until no robot of `robots` stands on it; after
/// `PLACEMENT_TRIES` draws, the first free cell of a fixed few.
fn draw_free_cell(rng: &mut Xorshift128, h: usize, w: usize, robots: &Vec<Pos>) -> (p: Pos)
    requires
        1 <= h <= 127,
        1 <= w <= 127,
        h * w >= 4,
        robots@.len() < 4,
    ensures
        in_grid(h as int, w as int, p.y as int, p.x as int),
        forall|j: int| 0 <= j < robots@.len() ==> robots@[j] != p,
{
    let mut tries: usize = 0;
    while tries < PLACEMENT_TRIES
        invariant
            1 <= h <= 127,
            1 <= w <= 127,
        decreases PLACEMENT_TRIES - tries,
    {
        let tp = Pos { y: gen_range(rng, 0, h) as i8, x: gen_range(rng, 0, w) as i8 };
        if is_free(robots, tp) {
            return tp;
        }
        tries = tries + 1;
    }
    spare_cell(h, w, robots)
}

/// Two boards of one size whose tables agree on every cell are alike to
/// every rule that reads the table.
proof fn lemma_same_table(a: &Board, b: &Board, ws: Seq<WallPos>)
    requires
        a.h == b.h,
        a.w == b.w,
        a.table_shape(),
        b.walldist@.len() == a.walldist@.len(),
        forall|y: int| 0 <= y < a.h ==> (#[trigger] b.walldist@[y]@).len() == a.walldist@[y]@.len(),
        forall|y: int, x: int| in_grid(a.h as int, a.w as int, y, x) ==> (#[trigger] b.walldist@[y]@[x])@ == a.walldist@[y]@[x]@,
    ensures
        b.table_shape(),
        a.table_for(ws) == b.table_for(ws),
        a.is_good() == b.is_good(),
        a.connected() == b.connected(),
{
    assert forall|y: int, x: int, d: int| in_grid(a.h as int, a.w as int, y, x) implies #[trigger] b.tab(y, x, d) == a.tab(y, x, d) by {
        assert(b.walldist@[y]@[x]@ == a.walldist@[y]@[x]@);
    }
    assert forall|y: int, x: int, d: int| in_grid(a.h as int, a.w as int, y, x) implies #[trigger] b.open_dir(y, x, d) == a.open_dir(y, x, d) by {
        assert(b.tab(y, x, d) == a.tab(y, x, d));
    }
    assert forall|s: Set<(int, int)>| #[trigger] a.closed_set(s) == b.closed_set(s) by {
        if a.closed_set(s) {
            assert forall|y: int, x: int, d: int|
                #![trigger s.contains((y, x)), b.open_dir(y, x, d)]
                s.contains((y, x)) && in_grid(b.h as int, b.w as int, y, x) && 0 <= d < 4
                    && b.open_dir(y, x, d) implies s.contains((y + dir_dy(d), x + dir_dx(d))) by {
                assert(a.open_dir(y, x, d));
            }
        }
        if b.closed_set(s) {
            assert forall|y: int, x: int, d: int|
                #![trigger s.contains((y, x)), a.open_dir(y, x, d)]
                s.contains((y, x)) && in_grid(a.h as int, a.w as int, y, x) && 0 <= d < 4
                    && a.open_dir(y, x, d) implies s.contains((y + dir_dy(d), x + dir_dx(d))) by {
                assert(b.open_dir(y, x, d));
            }
        }
    }
    assert forall|y: int, x: int| in_grid(a.h as int, a.w as int, y, x) implies #[trigger] b.blocked_count(y, x) == a.blocked_count(y, x) by {
        assert(b.tab(y, x, 0) == a.tab(y, x, 0));
        assert(b.tab(y, x, 1) == a.tab(y, x, 1));
        assert(b.tab(y, x, 2) == a.tab(y, x, 2));
        assert(b.tab(y, x, 3) == a.tab(y, x, 3));
    }
    if a.dense_enough() {
        assert forall|y: int, x: int| in_grid(b.h as int, b.w as int, y, x) implies #[trigger] b.blocked_count(y, x) >= 2 by {
            assert(a.blocked_count(y, x) >= 2);
        }
    }
    if b.dense_enough() {
        assert forall|y: int, x: int| in_grid(a.h as int, a.w as int, y, x) implies #[trigger] a.blocked_count(y, x) >= 2 by {
            assert(b.blocked_count(y, x) >= 2);
        }
    }
    if a.connected() {
        assert forall|s: Set<(int, int)>| #[trigger] b.closed_set(s) && s.contains((0, 0)) implies grid_cells(
            b.h as int,
            b.w as int,
        ).subset_of(s) by {
            assert(a.closed_set(s));
        }
    }
    if b.connected() {
        assert forall|s: Set<(int, int)>| #[trigger] a.closed_set(s) && s.contains((0, 0)) implies grid_cells(
            a.h as int,
            a.w as int,
        ).subset_of(s) by {
            assert(b.closed_set(s));
        }
    }
    assert forall|y: int, x: int| in_grid(a.h as int, a.w as int, y, x) implies (#[trigger] b.walldist@[y]@[x]@).len() == 4 by {
        assert(b.walldist@[y]@[x]@ == a.walldist@[y]@[x]@);
    }
    if a.table_for(ws) {
        assert forall|y: int, x: int, d: int|
            in_grid(b.h as int, b.w as int, y, x) && 0 <= d < 4 implies #[trigger] b.tab(y, x, d)
                == wall_dist(ws, b.h as int, b.w as int, y, x, d) by {
            assert(a.tab(y, x, d) == b.tab(y, x, d));
        }
    }
    if b.table_for(ws) {
        assert forall|y: int, x: int, d: int|
            in_grid(a.h as int, a.w as int, y, x) && 0 <= d < 4 implies #[trigger] a.tab(y, x, d)
                == wall_dist(ws, a.h as int, a.w as int, y, x, d) by {
            assert(a.tab(y, x, d) == b.tab(y, x, d));
        }
    }
}

/// The walls proposed in one round around cell `(cy, cx)`: one above cell
/// `(cy + oy, cx)` and one left of cell `(cy, cx + ox)`, each only where it
/// falls inside the grid.
pub open spec fn wall_proposals(h: int, w: int, cy: int, cx: int, oy: int, ox: int) -> Seq<WallPos> {
    let row = if 0 < cy + oy < h {
        seq![WallPos { y: (cy + oy) as i8, x: cx as i8, d: 0 }]
    } else {
        Seq::empty()
    };
    let col = if 0 < cx + ox < w {
        seq![WallPos { y: cy as i8, x: (cx + ox) as i8, d: 1 }]
    } else {
        Seq::empty()
    };
    row + col
}

/// A board of this size is valid once its table matches the walls `ws`.
proof fn lemma_good_by_walls(a: &Board, ws: Seq<WallPos>)
    requires
        a.table_for(ws),
    ensures
        a.walls_good(ws) == a.is_good(),
{
    assert forall|b: Board| b.h == a.h && b.w == a.w && #[trigger] b.table_for(ws) implies b.is_good() == a.is_good() by {
        assert forall|y: int, x: int| in_grid(a.h as int, a.w as int, y, x) implies (#[trigger] b.walldist@[y]@[x])@
            == a.walldist@[y]@[x]@ by {
            assert(b.walldist@[y]@[x]@ =~= a.walldist@[y]@[x]@) by {
                assert forall|d: int| 0 <= d < 4 implies b.walldist@[y]@[x]@[d] == a.walldist@[y]@[x]@[d] by {
                    assert(b.tab(y, x, d) == a.tab(y, x, d));
                }
            }
        }
        lemma_same_table(a, &b, ws);
    }
}

/// A board without walls is connected.
proof fn lemma_open_board_connected(b: &Board)
    requires
        b.table_for(Seq::empty()),
    ensures
        b.connected(),
{
    assert forall|s: Set<(int, int)>| #[trigger] b.closed_set(s) && s.contains((0, 0)) implies grid_cells(
        b.h as int,
        b.w as int,
    ).subset_of(s) by {
        assert forall|c: (int, int)| grid_cells(b.h as int, b.w as int).contains(c) implies s.contains(c) by {
            lemma_open_column(b, s, c.0, c.1);
        }
    }
}

proof fn lemma_open_row(b: &Board, s: Set<(int, int)>, x: int)
    requires
        b.table_for(Seq::empty()),
        b.closed_set(s),
        s.contains((0, 0)),
        0 <= x < b.w,
    ensures
        s.contains((0, x)),
    decreases x,
{
    if x > 0 {
        lemma_open_row(b, s, x - 1);
        assert(b.tab(0, x - 1, 1) == wall_dist(Seq::empty(), b.h as int, b.w as int, 0, x - 1, 1));
        assert(b.open_dir(0, x - 1, 1));
    }
}

proof fn lemma_open_column(b: &Board, s: Set<(int, int)>, y: int, x: int)
    requires
        b.table_for(Seq::empty()),
        b.closed_set(s),
        s.contains((0, 0)),
        in_grid(b.h as int, b.w as int, y, x),
    ensures
        s.contains((y, x)),
    decreases y,
{
    if y > 0 {
        lemma_open_column(b, s, y - 1, x);
        assert(b.tab(y - 1, x, 0) == wall_dist(Seq::empty(), b.h as int, b.w as int, y - 1, x, 0));
        assert(b.open_dir(y - 1, x, 0));
    } else {
        lemma_open_row(b, s, x);
    }
}

/// A deep copy of a distance table.
fn copy_table(t: &Vec<Vec<Vec<usize>>>) -> (r: Vec<Vec<Vec<usize>>>)
    ensures
        r@.len() == t@.len(),
        forall|y: int| 0 <= y < t@.len() ==> (#[trigger] r@[y]@).len() == t@[y]@.len(),
        forall|y: int, x: int|
            0 <= y < t@.len() && 0 <= x < t@[y]@.len() ==> (#[trigger] r@[y]@[x])@ == t@[y]@[x]@,
{
    let mut r: Vec<Vec<Vec<usize>>> = Vec::new();
    let mut y: usize = 0;
    while y < t.len()
        invariant
            y <= t@.len(),
            r@.len() == y,
            forall|yy: int| 0 <= yy < y ==> (#[trigger] r@[yy]@).len() == t@[yy]@.len(),
            forall|yy: int, x: int|
                0 <= yy < y && 0 <= x < t@[yy]@.len() ==> (#[trigger] r@[yy]@[x])@ == t@[yy]@[x]@,
        decreases t@.len() - y,
    {
        let mut row: Vec<Vec<usize>> = Vec::new();
        let mut x: usize = 0;
        while x < t[y].len()
            invariant
                y < t@.len(),
                x <= t@[y as int]@.len(),
                row@.len() == x,
                forall|xx: int| 0 <= xx < x ==> (#[trigger] row@[xx])@ == t@[y as int]@[xx]@,
            decreases t@[y as int]@.len() - x,
        {
            let mut cell: Vec<usize> = Vec::new();
            let mut d: usize = 0;
            while d < t[y][x].len()
                invariant
                    y < t@.len(),
                    x < t@[y as int]@.len(),
                    d <= t@[y as int]@[x as int]@.len(),
                    cell@ == t@[y as int]@[x as int]@.subrange(0, d as int),
                decreases t@[y as int]@[x as int]@.len() - d,
            {
                cell.push(t[y][x][d]);
                d = d + 1;
            }
            assert(cell@ =~= t@[y as int]@[x as int]@);
            row.push(cell);
            x = x + 1;
        }
        r.push(row);
        y = y + 1;
    }
    r
}

impl Board {
    /// The slide distance that the table holds for `(y, x)` in direction `d`.
    pub open spec fn tab(&self, y: int, x: int, d: int) -> int {
        self.walldist@[y]@[x]@[d] as int
    }

    /// The table has one entry per cell and direction, and each entry is the
    /// distance that the walls `walls` leave.
    pub open spec fn table_for(&self, walls: Seq<WallPos>) -> bool {
        &&& self.table_shape()
        &&& forall|y: int, x: int, d: int|
            in_grid(self.h as int, self.w as int, y, x) && 0 <= d < 4 ==> #[trigger] self.tab(y, x, d)
                == wall_dist(walls, self.h as int, self.w as int, y, x, d)
        &&& forall|i: int| 0 <= i < walls.len() ==> wall_wf(#[trigger] walls[i], self.h as int, self.w as int)
    }

    /// The size fits a cell position, and the table has one entry per cell
    /// and direction.
    pub open spec fn table_shape(&self) -> bool {
        &&& 1 <= self.h <= 127
        &&& 1 <= self.w <= 127
        &&& self.walldist@.len() == self.h
        &&& forall|y: int| 0 <= y < self.h ==> (#[trigger] self.walldist@[y]@).len() == self.w
        &&& forall|y: int, x: int|
            in_grid(self.h as int, self.w as int, y, x) ==> (#[trigger] self.walldist@[y]@[x]@).len() == 4
    }

    /// The table matches the board's own walls.
    pub open spec fn table_wf(&self) -> bool {
        self.table_for(self.walls@)
    }

    /// A slide from `(y, x)` in direction `d` can take at least one step.
    pub open spec fn open_dir(&self, y: int, x: int, d: int) -> bool {
        self.tab(y, x, d) > 0 && in_grid(self.h as int, self.w as int, y + dir_dy(d), x + dir_dx(d))
    }

    /// Every open step out of a cell of `s` leads into `s`.
    pub open spec fn closed_set(&self, s: Set<(int, int)>) -> bool {
        forall|y: int, x: int, d: int|
            #![trigger s.contains((y, x)), self.open_dir(y, x, d)]
            s.contains((y, x)) && in_grid(self.h as int, self.w as int, y, x) && 0 <= d < 4
                && self.open_dir(y, x, d) ==> s.contains((y + dir_dy(d), x + dir_dx(d)))
    }

    /// Every cell can be reached from `(0, 0)` by single open steps: each
    /// set of cells that holds `(0, 0)` and is closed under open steps holds
    /// the whole grid.
    pub open spec fn connected(&self) -> bool {
        forall|s: Set<(int, int)>|
            #![trigger self.closed_set(s)]
            self.closed_set(s) && s.contains((0, 0)) ==> grid_cells(self.h as int, self.w as int).subset_of(s)
    }

    /// How many of the four directions of `(y, x)` are blocked at once.
    pub open spec fn blocked_count(&self, y: int, x: int) -> int {
        (if self.tab(y, x, 0) == 0 { 1int } else { 0 })
        + (if self.tab(y, x, 1) == 0 { 1int } else { 0 })
        + (if self.tab(y, x, 2) == 0 { 1int } else { 0 })
        + (if self.tab(y, x, 3) == 0 { 1int } else { 0 })
    }

    /// Every cell has at least two blocked directions.
    pub open spec fn dense_enough(&self) -> bool {
        forall|y: int, x: int|
            in_grid(self.h as int, self.w as int, y, x) ==> #[trigger] self.blocked_count(y, x) >= 2
    }

    /// Every board of this size whose table matches the walls `ws` is valid.
    pub open spec fn walls_good(&self, ws: Seq<WallPos>) -> bool {
        forall|b: Board| b.h == self.h && b.w == self.w && #[trigger] b.table_for(ws) ==> b.is_good()
    }

    /// The validity rule that a wall must keep.
    pub open spec fn is_good(&self) -> bool {
        self.connected() && self.dense_enough()
    }

    /// Whether the board is valid: every cell can be reached from `(0, 0)`
    /// by open steps, and every cell has at least two blocked directions.
    pub fn good_board(&self) -> (r: bool)
        requires
            self.table_shape(),
        ensures
            r == self.is_good(),
    {
        let h = self.h;
        let w = self.w;
        let mut gone: Vec<Vec<bool>> = Vec::new();
        let mut yy: usize = 0;
        while yy < h
            invariant
                yy <= h,
                gone@.len() == yy,
                forall|y: int| 0 <= y < yy ==> (#[trigger] gone@[y]@).len() == w,
                forall|y: int, x: int| 0 <= y < yy && 0 <= x < w ==> !(#[trigger] gone@[y]@[x]),
            decreases h - yy,
        {
            let row: Vec<bool> = vec![false; w];
            gone.push(row);
            yy = yy + 1;
        }
        gone[0][0] = true;
        let mut stack: Vec<(usize, usize)> = vec![(0, 0)];
        let ghost mut marked: Set<(int, int)> = set![(0int, 0int)];
        proof {
            lemma_grid_cells(h as int, w as int);
        }
        while stack.len() > 0
            invariant
                self.table_shape(),
                h == self.h,
                w == self.w,
                gone@.len() == h,
                forall|y: int| 0 <= y < h ==> (#[trigger] gone@[y]@).len() == w,
                forall|y: int, x: int|
                    in_grid(h as int, w as int, y, x) ==> (#[trigger] gone@[y]@[x] <==> marked.contains((y, x))),
                marked.subset_of(grid_cells(h as int, w as int)),
                marked.contains((0, 0)),
                grid_cells(h as int, w as int).finite(),
                grid_cells(h as int, w as int).len() <= h * w,
                forall|i: int|
                    0 <= i < stack@.len() ==> in_grid(h as int, w as int, (#[trigger] stack@[i]).0 as int, stack@[i].1 as int),
                forall|i: int|
                    0 <= i < stack@.len() ==> marked.contains(((#[trigger] stack@[i]).0 as int, stack@[i].1 as int)),
                forall|y: int, x: int, d: int|
                    #![trigger marked.contains((y, x)), self.open_dir(y, x, d)]
                    marked.contains((y, x)) && 0 <= d < 4 && self.open_dir(y, x, d)
                        && !marked.contains((y + dir_dy(d), x + dir_dx(d)))
                        ==> exists|i: int| 0 <= i < stack@.len() && #[trigger] stack@[i] == (y as usize, x as usize),
                forall|s: Set<(int, int)>|
                    #![trigger self.closed_set(s)]
                    self.closed_set(s) && s.contains((0, 0)) ==> marked.subset_of(s),
            decreases grid_cells(h as int, w as int).len() - marked.len(), stack.len(),
        {
            let ghost old_stack = stack@;
            let (cy, cx) = stack.pop().unwrap();
            proof {
                assert(old_stack[old_stack.len() - 1] == (cy, cx));
                assert(marked.contains((cy as int, cx as int)));
            }
            let ghost stack_before = stack@;
            let ghost marked_before = marked;
            let mut i: usize = 0;
            while i < 4
                invariant
                    self.table_shape(),
                    h == self.h,
                    w == self.w,
                    in_grid(h as int, w as int, cy as int, cx as int),
                    gone@.len() == h,
                    forall|y: int| 0 <= y < h ==> (#[trigger] gone@[y]@).len() == w,
                    forall|y: int, x: int|
                        in_grid(h as int, w as int, y, x) ==> (#[trigger] gone@[y]@[x] <==> marked.contains((y, x))),
                    marked.subset_of(grid_cells(h as int, w as int)),
                    marked_before.subset_of(marked),
                    marked.finite(),
                    grid_cells(h as int, w as int).finite(),
                    grid_cells(h as int, w as int).len() <= h * w,
                    marked.len() >= marked_before.len(),
                    marked.contains((0, 0)),
                    i <= 4,
                    stack_before.len() <= stack@.len(),
                    forall|k: int| 0 <= k < stack_before.len() ==> stack@[k] == stack_before[k],
                    marked.len() - marked_before.len() == stack@.len() - stack_before.len(),
                    forall|k: int|
                        0 <= k < stack@.len() ==> in_grid(h as int, w as int, (#[trigger] stack@[k]).0 as int, stack@[k].1 as int),
                    forall|d: int|
                        0 <= d < i && #[trigger] self.open_dir(cy as int, cx as int, d) ==> marked.contains(
                            (cy + dir_dy(d), cx + dir_dx(d)),
                        ),
                    marked.contains((cy as int, cx as int)),
                    forall|k: int|
                        0 <= k < stack@.len() ==> marked.contains(((#[trigger] stack@[k]).0 as int, stack@[k].1 as int)),
                    forall|y: int, x: int|
                        #[trigger] marked.contains((y, x)) && !marked_before.contains((y, x)) ==> exists|k: int|
                            0 <= k < stack@.len() && #[trigger] stack@[k] == (y as usize, x as usize),
                    forall|s: Set<(int, int)>|
                        #![trigger self.closed_set(s)]
                        self.closed_set(s) && s.contains((0, 0)) ==> marked.subset_of(s),
                decreases 4 - i,
            {
                let dy = direction_dy(i);
                let dx = direction_dx(i);
                if self.walldist[cy][cx][i] > 0 {
                    let ty = cy as i64 + dy as i64;
                    let tx = cx as i64 + dx as i64;
                    if 0 <= ty && ty < h as i64 && 0 <= tx && tx < w as i64 {
                        let ty = ty as usize;
                        let tx = tx as usize;
                        if !gone[ty][tx] {
                            let ghost stack_mid = stack@;
                            gone[ty][tx] = true;
                            stack.push((ty, tx));
                            proof {
                                assert forall|y: int, x: int|
                                    #[trigger] marked.contains((y, x)) && !marked_before.contains((y, x)) implies exists|k: int|
                                    0 <= k < stack@.len() && #[trigger] stack@[k] == (y as usize, x as usize) by {
                                    let k = choose|k: int| 0 <= k < stack_mid.len() && #[trigger] stack_mid[k] == (y as usize, x as usize);
                                    assert(stack@[k] == stack_mid[k]);
                                }
                                assert(self.open_dir(cy as int, cx as int, i as int));
                                assert forall|s: Set<(int, int)>| #[trigger]
                                    self.closed_set(s) && s.contains((0, 0)) implies marked.insert(
                                    (ty as int, tx as int),
                                ).subset_of(s) by {
                                    assert(s.contains((cy as int, cx as int)));
                                }
                                marked = marked.insert((ty as int, tx as int));
                                assert(stack@[stack@.len() - 1] == (ty, tx));
                            }
                        }
                    }
                }
                i = i + 1;
            }
            proof {
                lemma_len_subset(marked, grid_cells(h as int, w as int));
                assert forall|y: int, x: int, d: int|
                    #![trigger marked.contains((y, x)), self.open_dir(y, x, d)]
                    marked.contains((y, x)) && 0 <= d < 4 && self.open_dir(y, x, d)
                        && !marked.contains((y + dir_dy(d), x + dir_dx(d)))
                        implies exists|k: int| 0 <= k < stack@.len() && #[trigger] stack@[k] == (y as usize, x as usize) by {
                    if marked_before.contains((y, x)) {
                        assert(marked_before.contains((y, x)) && 0 <= d < 4 && self.open_dir(y, x, d));
                        if (y, x) == (cy as int, cx as int) {
                            assert(marked.contains((cy + dir_dy(d), cx + dir_dx(d))));
                        } else {
                            assert(!marked_before.contains((y + dir_dy(d), x + dir_dx(d))));
                            let k = choose|k: int| 0 <= k < old_stack.len() && #[trigger] old_stack[k] == (y as usize, x as usize);
                            assert(marked_before.subset_of(grid_cells(h as int, w as int)));
                            assert(grid_cells(h as int, w as int).contains((y, x)));
                            assert(0 <= y < h && 0 <= x < w);
                            assert(k < stack_before.len());
                            assert(stack_before[k] == old_stack[k]);
                            assert(stack@[k] == (y as usize, x as usize));
                        }
                    }
                }
            }
        }
        proof {
            assert(self.closed_set(marked)) by {
                assert forall|y: int, x: int, d: int|
                    #![trigger marked.contains((y, x)), self.open_dir(y, x, d)]
                    marked.contains((y, x)) && in_grid(self.h as int, self.w as int, y, x) && 0 <= d < 4
                        && self.open_dir(y, x, d) implies marked.contains((y + dir_dy(d), x + dir_dx(d))) by {
                    if !marked.contains((y + dir_dy(d), x + dir_dx(d))) {
                        let k = choose|k: int| 0 <= k < stack@.len() && #[trigger] stack@[k] == (y as usize, x as usize);
                    }
                }
            }
        }
        let mut y: usize = 0;
        while y < h
            invariant
                self.table_shape(),
                h == self.h,
                w == self.w,
                gone@.len() == h,
                forall|yy: int| 0 <= yy < h ==> (#[trigger] gone@[yy]@).len() == w,
                forall|yy: int, x: int|
                    in_grid(h as int, w as int, yy, x) ==> (#[trigger] gone@[yy]@[x] <==> marked.contains((yy, x))),
                self.closed_set(marked),
                marked.contains((0, 0)),
                forall|yy: int, x: int| 0 <= yy < y && 0 <= x < w ==> marked.contains((yy, x)),
                forall|s: Set<(int, int)>|
                    #![trigger self.closed_set(s)]
                    self.closed_set(s) && s.contains((0, 0)) ==> marked.subset_of(s),
            decreases h - y,
        {
            let mut x: usize = 0;
            while x < w
                invariant
                    self.table_shape(),
                    h == self.h,
                    w == self.w,
                    y < h,
                    gone@.len() == h,
                    forall|yy: int| 0 <= yy < h ==> (#[trigger] gone@[yy]@).len() == w,
                    forall|yy: int, xx: int|
                        in_grid(h as int, w as int, yy, xx) ==> (#[trigger] gone@[yy]@[xx] <==> marked.contains((yy, xx))),
                    self.closed_set(marked),
                    marked.contains((0, 0)),
                    forall|yy: int, xx: int| 0 <= yy < y && 0 <= xx < w ==> marked.contains((yy, xx)),
                    forall|xx: int| 0 <= xx < x ==> marked.contains((y as int, xx)),
                decreases w - x,
            {
                if !gone[y][x] {
                    proof {
                        assert(grid_cells(h as int, w as int).contains((y as int, x as int)));
                        assert(!grid_cells(h as int, w as int).subset_of(marked));
                        assert(self.closed_set(marked));
                        assert(!self.connected());
                    }
                    return false;
                }
                x = x + 1;
            }
            y = y + 1;
        }
        proof {
            assert(self.connected()) by {
                assert forall|s: Set<(int, int)>| #[trigger]
                    self.closed_set(s) && s.contains((0, 0)) implies grid_cells(h as int, w as int).subset_of(s) by {
                    assert(marked.subset_of(s));
                    assert forall|c: (int, int)| grid_cells(h as int, w as int).contains(c) implies s.contains(c) by {
                        assert(marked.contains((c.0, c.1)));
                    }
                }
            }
        }
        let mut y: usize = 0;
        while y < h
            invariant
                self.table_shape(),
                h == self.h,
                w == self.w,
                forall|yy: int, x: int| 0 <= yy < y && 0 <= x < w ==> #[trigger] self.blocked_count(yy, x) >= 2,
            decreases h - y,
        {
            let mut x: usize = 0;
            while x < w
                invariant
                    self.table_shape(),
                    h == self.h,
                    w == self.w,
                    y < h,
                    forall|yy: int, xx: int| 0 <= yy < y && 0 <= xx < w ==> #[trigger] self.blocked_count(yy, xx) >= 2,
                    forall|xx: int| 0 <= xx < x ==> #[trigger] self.blocked_count(y as int, xx) >= 2,
                decreases w - x,
            {
                let cell = &self.walldist[y][x];
                let mut d: usize = 0;
                if cell[0] == 0 {
                    d = d + 1;
                }
                if cell[1] == 0 {
                    d = d + 1;
                }
                if cell[2] == 0 {
                    d = d + 1;
                }
                if cell[3] == 0 {
                    d = d + 1;
                }
                if d < 2 {
                    proof {
                        assert(self.blocked_count(y as int, x as int) < 2);
                    }
                    return false;
                }
                x = x + 1;
            }
            y = y + 1;
        }
        true
    }

    /// Robots: four of them, on distinct cells of the grid.
    pub open spec fn robots_wf(&self) -> bool {
        &&& self.robots@.len() == 4
        &&& forall|i: int|
            0 <= i < 4 ==> in_grid(self.h as int, self.w as int, (#[trigger] self.robots@[i]).y as int, self.robots@[i].x as int)
        &&& forall|i: int, j: int| 0 <= i < 4 && 0 <= j < 4 && i != j ==> self.robots@[i] != self.robots@[j]
    }

    /// A finished board: its table matches its walls, and it has its robots.
    pub open spec fn wf(&self) -> bool {
        self.table_wf() && self.robots_wf()
    }

    /// Fills the table with the distances to the border alone.
    fn init_table(&mut self)
        requires
            1 <= old(self).h <= 127,
            1 <= old(self).w <= 127,
        ensures
            final(self).table_for(Seq::empty()),
            final(self).h == old(self).h,
            final(self).w == old(self).w,
            final(self).walls == old(self).walls,
            final(self).robots == old(self).robots,
    {
        let h = self.h;
        let w = self.w;
        let mut t: Vec<Vec<Vec<usize>>> = Vec::new();
        let mut y: usize = 0;
        while y < h
            invariant
                y <= h,
                t@.len() == y,
                forall|yy: int| 0 <= yy < y ==> (#[trigger] t@[yy]@).len() == w,
                forall|yy: int, x: int| 0 <= yy < y && 0 <= x < w ==> (#[trigger] t@[yy]@[x]@).len() == 4,
                forall|yy: int, x: int, d: int|
                    0 <= yy < y && 0 <= x < w && 0 <= d < 4 ==> (#[trigger] t@[yy]@[x]@[d]) as int
                        == border_dist(h as int, w as int, yy, x, d),
            decreases h - y,
        {
            let mut row: Vec<Vec<usize>> = Vec::new();
            let mut x: usize = 0;
            while x < w
                invariant
                    y < h,
                    x <= w,
                    row@.len() == x,
                    forall|xx: int| 0 <= xx < x ==> (#[trigger] row@[xx]@).len() == 4,
                    forall|xx: int, d: int|
                        0 <= xx < x && 0 <= d < 4 ==> (#[trigger] row@[xx]@[d]) as int
                            == border_dist(h as int, w as int, y as int, xx, d),
                decreases w - x,
            {
                let down = h - 1 - y;
                let right = w - 1 - x;
                row.push(vec![down, right, y, x]);
                x = x + 1;
            }
            t.push(row);
            y = y + 1;
        }
        self.walldist = t;
    }

    /// Adds to the table a wall above cell `(y, x)`, after the walls `walls`.
    fn add_row_wall(&mut self, y: usize, x: usize, Ghost(walls): Ghost<Seq<WallPos>>) -> (wl: WallPos)
        requires
            old(self).table_for(walls),
            0 < y < old(self).h,
            x < old(self).w,
        ensures
            wl == (WallPos { y: y as i8, x: x as i8, d: 0 }),
            final(self).table_for(walls.push(wl)),
            final(self).h == old(self).h,
            final(self).w == old(self).w,
            final(self).walls == old(self).walls,
            final(self).robots == old(self).robots,
    {
        let wl = WallPos { y: y as i8, x: x as i8, d: 0 };
        assert(wl.y as int == y && wl.x as int == x);
        assert(old(self).table_shape());
        let ghost t0 = *self;
        let h = self.h;
        let mut ty: usize = 0;
        while ty < h
            invariant
                t0.table_for(walls),
                wl == (WallPos { y: y as i8, x: x as i8, d: 0 }),
                wl.y as int == y && wl.x as int == x,
                self.table_shape(),
                self.h == h,
                self.w == t0.w,
                h == t0.h,
                0 < y < h,
                x < self.w,
                self.walls == t0.walls,
                self.robots == t0.robots,
                ty <= h,
                forall|yy: int, xx: int, d: int|
                    in_grid(h as int, self.w as int, yy, xx) && 0 <= d < 4 ==> #[trigger] self.tab(yy, xx, d)
                        == if xx == x && yy < ty && (d == 0 || d == 2) && wall_blocks(wl, yy, xx, d)
                        && wall_gap(wl, yy, xx, d) < t0.tab(yy, xx, d) {
                        wall_gap(wl, yy, xx, d)
                    } else {
                        t0.tab(yy, xx, d)
                    },
            decreases h - ty,
        {
            let ghost prev = *self;
            if ty < y {
                let v = self.walldist[ty][x][0];
                if y - 1 - ty < v {
                    self.walldist[ty][x][0] = y - 1 - ty;
                    assert(self.walldist@[ty as int]@[x as int]@ =~= prev.walldist@[ty as int]@[x as int]@.update(0, (y - 1 - ty) as usize));
                }
            } else {
                let v = self.walldist[ty][x][2];
                if ty - y < v {
                    self.walldist[ty][x][2] = ty - y;
                    assert(self.walldist@[ty as int]@[x as int]@ =~= prev.walldist@[ty as int]@[x as int]@.update(2, (ty - y) as usize));
                }
            }
            proof {
                assert forall|d: int| 0 <= d < 4 implies #[trigger] self.tab(ty as int, x as int, d)
                    == if (d == 0 || d == 2) && wall_blocks(wl, ty as int, x as int, d)
                    && wall_gap(wl, ty as int, x as int, d) < t0.tab(ty as int, x as int, d) {
                    wall_gap(wl, ty as int, x as int, d)
                } else {
                    t0.tab(ty as int, x as int, d)
                } by {
                    assert(prev.tab(ty as int, x as int, d) == t0.tab(ty as int, x as int, d));
                }
                assert forall|yy: int, xx: int, d: int|
                    in_grid(h as int, self.w as int, yy, xx) && 0 <= d < 4 && !(yy == ty && xx == x)
                    implies #[trigger] self.tab(yy, xx, d) == prev.tab(yy, xx, d) by {
                    if yy != ty {
                        assert(self.walldist@[yy] == prev.walldist@[yy]);
                    } else {
                        assert(self.walldist@[yy]@[xx] == prev.walldist@[yy]@[xx]);
                    }
                }
            }
            ty = ty + 1;
        }
        proof {
            let ws = walls.push(wl);
            assert(ws.drop_last() =~= walls);
            assert forall|i: int| 0 <= i < ws.len() implies wall_wf(#[trigger] ws[i], self.h as int, self.w as int) by {
                if i < walls.len() {
                    assert(ws[i] == walls[i]);
                }
            }
            assert forall|yy: int, xx: int, d: int|
                in_grid(self.h as int, self.w as int, yy, xx) && 0 <= d < 4 implies #[trigger] self.tab(yy, xx, d)
                    == wall_dist(ws, self.h as int, self.w as int, yy, xx, d) by {
                assert(t0.tab(yy, xx, d) == wall_dist(walls, self.h as int, self.w as int, yy, xx, d));
            }
        }
        wl
    }

    /// Adds to the table a wall left of cell `(y, x)`, after the walls `walls`.
    fn add_col_wall(&mut self, y: usize, x: usize, Ghost(walls): Ghost<Seq<WallPos>>) -> (wl: WallPos)
        requires
            old(self).table_for(walls),
            y < old(self).h,
            0 < x < old(self).w,
        ensures
            wl == (WallPos { y: y as i8, x: x as i8, d: 1 }),
            final(self).table_for(walls.push(wl)),
            final(self).h == old(self).h,
            final(self).w == old(self).w,
            final(self).walls == old(self).walls,
            final(self).robots == old(self).robots,
    {
        let wl = WallPos { y: y as i8, x: x as i8, d: 1 };
        assert(wl.y as int == y && wl.x as int == x);
        assert(old(self).table_shape());
        let ghost t0 = *self;
        let w = self.w;
        let mut tx: usize = 0;
        while tx < w
            invariant
                t0.table_for(walls),
                wl == (WallPos { y: y as i8, x: x as i8, d: 1 }),
                wl.y as int == y && wl.x as int == x,
                self.table_shape(),
                self.w == w,
                self.h == t0.h,
                w == t0.w,
                0 < x < w,
                y < self.h,
                self.walls == t0.walls,
                self.robots == t0.robots,
                tx <= w,
                forall|yy: int, xx: int, d: int|
                    in_grid(self.h as int, w as int, yy, xx) && 0 <= d < 4 ==> #[trigger] self.tab(yy, xx, d)
                        == if yy == y && xx < tx && (d == 1 || d == 3) && wall_blocks(wl, yy, xx, d)
                        && wall_gap(wl, yy, xx, d) < t0.tab(yy, xx, d) {
                        wall_gap(wl, yy, xx, d)
                    } else {
                        t0.tab(yy, xx, d)
                    },
            decreases w - tx,
        {
            let ghost prev = *self;
            if tx < x {
                let v = self.walldist[y][tx][1];
                if x - 1 - tx < v {
                    self.walldist[y][tx][1] = x - 1 - tx;
                    assert(self.walldist@[y as int]@[tx as int]@ =~= prev.walldist@[y as int]@[tx as int]@.update(1, (x - 1 - tx) as usize));
                }
            } else {
                let v = self.walldist[y][tx][3];
                if tx - x < v {
                    self.walldist[y][tx][3] = tx - x;
                    assert(self.walldist@[y as int]@[tx as int]@ =~= prev.walldist@[y as int]@[tx as int]@.update(3, (tx - x) as usize));
                }
            }
            proof {
                assert forall|d: int| 0 <= d < 4 implies #[trigger] self.tab(y as int, tx as int, d)
                    == if (d == 1 || d == 3) && wall_blocks(wl, y as int, tx as int, d)
                    && wall_gap(wl, y as int, tx as int, d) < t0.tab(y as int, tx as int, d) {
                    wall_gap(wl, y as int, tx as int, d)
                } else {
                    t0.tab(y as int, tx as int, d)
                } by {
                    assert(prev.tab(y as int, tx as int, d) == t0.tab(y as int, tx as int, d));
                }
                assert forall|yy: int, xx: int, d: int|
                    in_grid(self.h as int, w as int, yy, xx) && 0 <= d < 4 && !(yy == y && xx == tx)
                    implies #[trigger] self.tab(yy, xx, d) == prev.tab(yy, xx, d) by {
                    if yy != y {
                        assert(self.walldist@[yy] == prev.walldist@[yy]);
                    } else {
                        assert(self.walldist@[yy]@[xx] == prev.walldist@[yy]@[xx]);
                    }
                }
            }
            tx = tx + 1;
        }
        proof {
            let ws = walls.push(wl);
            assert(ws.drop_last() =~= walls);
            assert forall|i: int| 0 <= i < ws.len() implies wall_wf(#[trigger] ws[i], self.h as int, self.w as int) by {
                if i < walls.len() {
                    assert(ws[i] == walls[i]);
                }
            }
            assert forall|yy: int, xx: int, d: int|
                in_grid(self.h as int, self.w as int, yy, xx) && 0 <= d < 4 implies #[trigger] self.tab(yy, xx, d)
                    == wall_dist(ws, self.h as int, self.w as int, yy, xx, d) by {
                assert(t0.tab(yy, xx, d) == wall_dist(walls, self.h as int, self.w as int, yy, xx, d));
            }
        }
        wl
    }

    /// One round of wall placement around cell `(cy, cx)`: the proposed
    /// walls are kept exactly when the board with them is valid; otherwise
    /// walls and table stay as they were.
    pub fn try_walls(&mut self, cy: usize, cx: usize, oy: usize, ox: usize) -> (kept: bool)
        requires
            old(self).table_wf(),
            cy < old(self).h,
            cx < old(self).w,
            oy < 2,
            ox < 2,
        ensures
            kept == old(self).walls_good(
                old(self).walls@ + wall_proposals(old(self).h as int, old(self).w as int, cy as int, cx as int, oy as int, ox as int),
            ),
            final(self).walls@ == if kept {
                old(self).walls@ + wall_proposals(old(self).h as int, old(self).w as int, cy as int, cx as int, oy as int, ox as int)
            } else {
                old(self).walls@
            },
            !kept ==> forall|y: int, x: int|
                in_grid(old(self).h as int, old(self).w as int, y, x) ==> (#[trigger] final(self).walldist@[y]@[x])@
                    == old(self).walldist@[y]@[x]@,
            kept ==> final(self).is_good(),
            final(self).table_wf(),
            final(self).h == old(self).h,
            final(self).w == old(self).w,
            final(self).robots == old(self).robots,
    {
        let h = self.h;
        let w = self.w;
        let mem = copy_table(&self.walldist);
        let ghost before = *self;
        let ghost props = wall_proposals(h as int, w as int, cy as int, cx as int, oy as int, ox as int);
        let mut add_walls: Vec<WallPos> = Vec::new();
        let y = cy + oy;
        let x = cx;
        if 0 < y && y < h {
            let wl = self.add_row_wall(y, x, Ghost(self.walls@ + add_walls@));
            add_walls.push(wl);
            assert(self.walls@ + add_walls@ =~= before.walls@.push(wl));
        }
        assert(self.walls@ + add_walls@ =~= before.walls@ + add_walls@);
        let y = cy;
        let x = cx + ox;
        if 0 < x && x < w {
            let ghost pending = add_walls@;
            let wl = self.add_col_wall(y, x, Ghost(self.walls@ + add_walls@));
            add_walls.push(wl);
            assert(self.walls@ + add_walls@ =~= (before.walls@ + pending).push(wl));
        }
        assert(add_walls@ =~= props);
        let ghost trial = *self;
        let ghost pend = add_walls@;
        assert(trial.table_for(trial.walls@ + pend));
        proof {
            lemma_good_by_walls(&trial, before.walls@ + props);
        }
        if self.good_board() {
            self.walls.append(&mut add_walls);
            proof {
                assert(self.walls@ =~= trial.walls@ + pend);
                lemma_same_table(&trial, self, self.walls@);
            }
            true
        } else {
            self.walldist = mem;
            proof {
                lemma_same_table(&before, self, before.walls@);
            }
            false
        }
    }

    /// Draws the walls, then the robots, of a board whose size is set.
    fn init(&mut self, rng: Xorshift128, wall_num: usize)
        requires
            1 <= old(self).h <= 127,
            1 <= old(self).w <= 127,
            old(self).h * old(self).w >= 4,
            old(self).walls@.len() == 0,
            old(self).robots@.len() == 0,
        ensures
            final(self).wf(),
            final(self).h == old(self).h,
            final(self).w == old(self).w,
            final(self).connected(),
            final(self).walls@.len() > 0 ==> final(self).is_good(),
            final(self).walls@.len() <= 2 * wall_num,
    {
        let mut rng = rng;
        let h = self.h;
        let w = self.w;
        self.init_table();
        proof {
            lemma_open_board_connected(self);
        }
        let mut k: usize = 0;
        while k < wall_num
            invariant
                self.table_wf(),
                self.h == h,
                self.w == w,
                h * w >= 4,
                self.robots@.len() == 0,
                self.walls@.len() > 0 ==> self.is_good(),
                self.connected(),
                self.walls@.len() <= 2 * k,
                k <= wall_num,
            decreases wall_num - k,
        {
            let cy = gen_range(&mut rng, 0, h);
            let cx = gen_range(&mut rng, 0, w);
            let oy = gen_range(&mut rng, 0, 2);
            let ox = gen_range(&mut rng, 0, 2);
            let ghost before = *self;
            let kept = self.try_walls(cy, cx, oy, ox);
            proof {
                if kept {
                    assert(self.is_good());
                } else {
                    lemma_same_table(&before, self, self.walls@);
                }
            }
            k = k + 1;
        }
        let mut i: usize = 0;
        while i < 4
            invariant
                self.table_wf(),
                self.h == h,
                self.w == w,
                h * w >= 4,
                self.walls@.len() > 0 ==> self.is_good(),
                self.connected(),
                self.walls@.len() <= 2 * wall_num,
                i <= 4,
                self.robots@.len() == i,
                forall|j: int|
                    0 <= j < i ==> in_grid(h as int, w as int, (#[trigger] self.robots@[j]).y as int, self.robots@[j].x as int),
                forall|a: int, b: int| 0 <= a < i && 0 <= b < i && a != b ==> self.robots@[a] != self.robots@[b],
            decreases 4 - i,
        {
            let tp = draw_free_cell(&mut rng, h, w, &self.robots);
            let ghost prev = *self;
            self.robots.push(tp);
            proof {
                lemma_same_table(&prev, self, self.walls@);
            }
            i = i + 1;
        }
    }

    /// A new `board_h` by `board_w` board: up to `wall_num` rounds of wall
    /// placement, each kept only if the board stays valid, then four robots
    /// on distinct cells.
    pub fn new(board_h: usize, board_w: usize, rng: Xorshift128, wall_num: usize) -> (res: Board)
        requires
            1 <= board_h <= 127,
            1 <= board_w <= 127,
            board_h * board_w >= 4,
        ensures
            res.wf(),
            res.h == board_h,
            res.w == board_w,
            res.connected(),
            res.walls@.len() > 0 ==> res.is_good(),
            res.walls@.len() <= 2 * wall_num,
    {
        let mut res = Board { w: board_w, h: board_h, walls: Vec::new(), walldist: Vec::new(), robots: Vec::new() };
        res.init(rng, wall_num);
        res
    }
}

/// The direction opposite to `d`.
pub open spec fn opposite(d: int) -> int {
    if d < 2 {
        d + 2
    } else {
        d - 2
    }
}

/// A slide distance is zero exactly at the border or right before a wall.
proof fn lemma_wall_dist_zero(walls: Seq<WallPos>, h: int, w: int, y: int, x: int, d: int)
    requires
        in_grid(h, w, y, x),
        0 <= d < 4,
    ensures
        (wall_dist(walls, h, w, y, x, d) == 0) <==> (border_dist(h, w, y, x, d) == 0 || exists|k: int|
            0 <= k < walls.len() && wall_blocks(#[trigger] walls[k], y, x, d) && wall_gap(walls[k], y, x, d) == 0),
        wall_dist(walls, h, w, y, x, d) >= 0,
    decreases walls.len(),
{
    if walls.len() > 0 {
        let rest = walls.drop_last();
        lemma_wall_dist_zero(rest, h, w, y, x, d);
        if exists|k: int| 0 <= k < rest.len() && wall_blocks(#[trigger] rest[k], y, x, d) && wall_gap(rest[k], y, x, d) == 0 {
            let k = choose|k: int| 0 <= k < rest.len() && wall_blocks(#[trigger] rest[k], y, x, d) && wall_gap(rest[k], y, x, d) == 0;
            assert(walls[k] == rest[k]);
        }
        if exists|k: int| 0 <= k < walls.len() && wall_blocks(#[trigger] walls[k], y, x, d) && wall_gap(walls[k], y, x, d) == 0 {
            let k = choose|k: int| 0 <= k < walls.len() && wall_blocks(#[trigger] walls[k], y, x, d) && wall_gap(walls[k], y, x, d) == 0;
            if k < rest.len() {
                assert(rest[k] == walls[k]);
            }
        }
    }
}

impl Board {
    /// A step that is open one way is open the other way too.
    pub proof fn lemma_open_symmetric(&self, y: int, x: int, d: int)
        requires
            self.table_wf(),
            in_grid(self.h as int, self.w as int, y, x),
            0 <= d < 4,
            self.open_dir(y, x, d),
        ensures
            self.open_dir(y + dir_dy(d), x + dir_dx(d), opposite(d)),
    {
        let (h, w) = (self.h as int, self.w as int);
        let (ny, nx) = (y + dir_dy(d), x + dir_dx(d));
        let e = opposite(d);
        let ws = self.walls@;
        lemma_wall_dist_zero(ws, h, w, y, x, d);
        lemma_wall_dist_zero(ws, h, w, ny, nx, e);
        if wall_dist(ws, h, w, ny, nx, e) == 0 {
            let k = choose|k: int| 0 <= k < ws.len() && wall_blocks(#[trigger] ws[k], ny, nx, e) && wall_gap(ws[k], ny, nx, e) == 0;
            assert(wall_blocks(ws[k], y, x, d) && wall_gap(ws[k], y, x, d) == 0);
        }
        assert(ny + dir_dy(e) == y && nx + dir_dx(e) == x);
    }

    /// Every cell can be reached from every cell of a connected board: each
    /// set of cells that holds `(y, x)` and is closed under open steps holds
    /// the whole grid.
    pub proof fn lemma_connected_from_any_cell(&self, y: int, x: int)
        requires
            self.table_wf(),
            self.connected(),
            in_grid(self.h as int, self.w as int, y, x),
        ensures
            forall|s: Set<(int, int)>|
                #![trigger self.closed_set(s)]
                self.closed_set(s) && s.contains((y, x)) ==> grid_cells(self.h as int, self.w as int).subset_of(s),
    {
        let g = grid_cells(self.h as int, self.w as int);
        assert forall|s: Set<(int, int)>| #[trigger] self.closed_set(s) && s.contains((y, x)) implies g.subset_of(s) by {
            if !s.contains((0, 0)) {
                let t = g.difference(s);
                assert forall|yy: int, xx: int, d: int|
                    #![trigger t.contains((yy, xx)), self.open_dir(yy, xx, d)]
                    t.contains((yy, xx)) && in_grid(self.h as int, self.w as int, yy, xx) && 0 <= d < 4
                        && self.open_dir(yy, xx, d) implies t.contains((yy + dir_dy(d), xx + dir_dx(d))) by {
                    let (ny, nx) = (yy + dir_dy(d), xx + dir_dx(d));
                    if s.contains((ny, nx)) {
                        self.lemma_open_symmetric(yy, xx, d);
                        assert(in_grid(self.h as int, self.w as int, ny, nx));
                        assert(s.contains((ny + dir_dy(opposite(d)), nx + dir_dx(opposite(d)))));
                        assert(ny + dir_dy(opposite(d)) == yy && nx + dir_dx(opposite(d)) == xx);
                    }
                }
                assert(self.closed_set(t));
                assert(t.contains((0, 0)));
                assert(g.subset_of(t));
                assert(g.contains((y, x)));
            }
        }
    }
}

} // verus!
