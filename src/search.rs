use std::collections::HashSet;
use vstd::prelude::*;
use vstd::set_lib::lemma_len_subset;
use crate::board::{border_dist, grid_cells, in_grid, lemma_grid_cells, wall_blocks, wall_dist, wall_gap, Board, WallPos};
use crate::geometry::{dir_dx, dir_dy, direction_dx, direction_dy, Move, Pos};
use crate::move_log::SinglyLinkedList;

verus! {

pub open spec fn sgn(v: int) -> int {
    if v > 0 {
        1
    } else if v < 0 {
        -1
    } else {
        0
    }
}

pub open spec fn abs(v: int) -> int {
    if v < 0 {
        -v
    } else {
        v
    }
}

/// Whether a robot at `q` stands in the way of one at `p` that slides in
/// direction `d`.
pub open spec fn in_path(p: Pos, q: Pos, d: int) -> bool {
    sgn(q.x - p.x) == dir_dx(d) && sgn(q.y - p.y) == dir_dy(d)
}

/// Free cells between `p` and a robot at `q` in its path.
pub open spec fn path_gap(p: Pos, q: Pos) -> int {
    if q.x == p.x {
        abs(q.y - p.y) - 1
    } else {
        abs(q.x - p.x) - 1
    }
}

/// How far robot `i` can slide in direction `d`, counting the wall table
/// and the robots `0..n`.
pub open spec fn slide_limit(b: &Board, robots: Seq<Pos>, i: int, d: int, n: int) -> int
    decreases n,
{
    if n <= 0 {
        b.tab(robots[i].y as int, robots[i].x as int, d)
    } else {
        let r = slide_limit(b, robots, i, d, n - 1);
        let j = n - 1;
        if j != i && in_path(robots[i], robots[j], d) && path_gap(robots[i], robots[j]) < r {
            path_gap(robots[i], robots[j])
        } else {
            r
        }
    }
}

/// How far robot `i` slides in direction `d`.
pub open spec fn slide_dist(b: &Board, robots: Seq<Pos>, i: int, d: int) -> int {
    slide_limit(b, robots, i, d, robots.len() as int)
}

/// The cell `t` steps from `p` in direction `d`.
pub open spec fn step_cell(p: Pos, d: int, t: int) -> (int, int) {
    (p.y + dir_dy(d) * t, p.x + dir_dx(d) * t)
}

/// The robots after robot `i` slides in direction `d`; `None` when it
/// cannot move at all.
pub open spec fn slide(b: &Board, robots: Seq<Pos>, i: int, d: int) -> Option<Seq<Pos>> {
    let k = slide_dist(b, robots, i, d);
    if k == 0 {
        None
    } else {
        let c = step_cell(robots[i], d, k);
        Some(robots.update(i, Pos { y: c.0 as i8, x: c.1 as i8 }))
    }
}

/// Four robots on distinct cells of the board.
pub open spec fn robots_ok(b: &Board, robots: Seq<Pos>) -> bool {
    &&& robots.len() == 4
    &&& forall|i: int|
        0 <= i < 4 ==> in_grid(b.h as int, b.w as int, (#[trigger] robots[i]).y as int, robots[i].x as int)
    &&& forall|i: int, j: int| 0 <= i < 4 && 0 <= j < 4 && i != j ==> robots[i] != robots[j]
}

/// Whether the step from `(y, x)` in direction `d` crosses wall `wl`.
pub open spec fn crosses(wl: WallPos, y: int, x: int, d: int) -> bool {
    ||| (d == 0 && wl.d == 0 && wl.x == x && wl.y == y + 1)
    ||| (d == 2 && wl.d == 0 && wl.x == x && wl.y == y)
    ||| (d == 1 && wl.d == 1 && wl.y == y && wl.x == x + 1)
    ||| (d == 3 && wl.d == 1 && wl.y == y && wl.x == x)
}

proof fn lemma_wall_dist_bounds(walls: Seq<WallPos>, h: int, w: int, y: int, x: int, d: int)
    requires
        in_grid(h, w, y, x),
        0 <= d < 4,
    ensures
        0 <= wall_dist(walls, h, w, y, x, d) <= border_dist(h, w, y, x, d),
        forall|k: int|
            0 <= k < walls.len() && wall_blocks(#[trigger] walls[k], y, x, d) ==> wall_dist(walls, h, w, y, x, d)
                <= wall_gap(walls[k], y, x, d),
    decreases walls.len(),
{
    if walls.len() > 0 {
        lemma_wall_dist_bounds(walls.drop_last(), h, w, y, x, d);
        assert forall|k: int|
            0 <= k < walls.len() && wall_blocks(#[trigger] walls[k], y, x, d) implies wall_dist(walls, h, w, y, x, d)
                <= wall_gap(walls[k], y, x, d) by {
            if k < walls.len() - 1 {
                assert(walls.drop_last()[k] == walls[k]);
            }
        }
    }
}

proof fn lemma_slide_limit_bounds(b: &Board, robots: Seq<Pos>, i: int, d: int, n: int)
    requires
        b.table_wf(),
        robots_ok(b, robots),
        0 <= i < 4,
        0 <= d < 4,
        0 <= n <= 4,
    ensures
        0 <= slide_limit(b, robots, i, d, n) <= b.tab(robots[i].y as int, robots[i].x as int, d),
        forall|j: int|
            0 <= j < n && j != i && in_path(robots[i], #[trigger] robots[j], d) ==> slide_limit(b, robots, i, d, n)
                <= path_gap(robots[i], robots[j]),
    decreases n,
{
    let p = robots[i];
    lemma_wall_dist_bounds(b.walls@, b.h as int, b.w as int, p.y as int, p.x as int, d);
    if n > 0 {
        lemma_slide_limit_bounds(b, robots, i, d, n - 1);
        let q = robots[n - 1];
        if n - 1 != i && in_path(p, q, d) {
            assert(q != p);
            assert(path_gap(p, q) >= 0);
        }
    }
}

/// A slide never leaves the grid, never passes over or onto another robot,
/// and never crosses a wall; the robot that slides ends on another cell, and
/// the robots stay on distinct cells of the grid.
pub proof fn lemma_slide_safe(b: &Board, robots: Seq<Pos>, i: int, d: int)
    requires
        b.table_wf(),
        robots_ok(b, robots),
        0 <= i < 4,
        0 <= d < 4,
    ensures
        slide(b, robots, i, d) matches Some(rs) ==> {
            let k = slide_dist(b, robots, i, d);
            let p = robots[i];
            &&& k > 0
            &&& forall|t: int|
                1 <= t <= k ==> in_grid(b.h as int, b.w as int, #[trigger] step_cell(p, d, t).0, step_cell(p, d, t).1)
            &&& forall|t: int, j: int|
                1 <= t <= k && 0 <= j < 4 && j != i ==> (#[trigger] robots[j].y as int, robots[j].x as int) != #[trigger] step_cell(p, d, t)
            &&& forall|t: int, wi: int|
                0 <= t < k && 0 <= wi < b.walls@.len() ==> !crosses(
                    #[trigger] b.walls@[wi],
                    #[trigger] step_cell(p, d, t).0,
                    step_cell(p, d, t).1,
                    d,
                )
            &&& rs[i] != robots[i]
            &&& (rs[i].y as int, rs[i].x as int) == step_cell(p, d, k)
            &&& robots_ok(b, rs)
        },
{
    let p = robots[i];
    let k = slide_dist(b, robots, i, d);
    lemma_slide_limit_bounds(b, robots, i, d, 4);
    lemma_wall_dist_bounds(b.walls@, b.h as int, b.w as int, p.y as int, p.x as int, d);
    if let Some(rs) = slide(b, robots, i, d) {
        assert(k <= border_dist(b.h as int, b.w as int, p.y as int, p.x as int, d));
        assert forall|t: int| 1 <= t <= k implies in_grid(
            b.h as int,
            b.w as int,
            #[trigger] step_cell(p, d, t).0,
            step_cell(p, d, t).1,
        ) by {
            if d == 0 {
            } else if d == 1 {
            } else if d == 2 {
            } else {
            }
        }
        assert forall|t: int, j: int|
            1 <= t <= k && 0 <= j < 4 && j != i implies (#[trigger] robots[j].y as int, robots[j].x as int) != #[trigger] step_cell(p, d, t) by {
            let q = robots[j];
            if (q.y as int, q.x as int) == step_cell(p, d, t) {
                assert(in_path(p, q, d));
                assert(path_gap(p, q) == t - 1);
            }
        }
        assert forall|t: int, wi: int|
            0 <= t < k && 0 <= wi < b.walls@.len() implies !crosses(
            #[trigger] b.walls@[wi],
            #[trigger] step_cell(p, d, t).0,
            step_cell(p, d, t).1,
            d,
        ) by {
            let wl = b.walls@[wi];
            if crosses(wl, step_cell(p, d, t).0, step_cell(p, d, t).1, d) {
                assert(wall_blocks(wl, p.y as int, p.x as int, d));
                assert(wall_gap(wl, p.y as int, p.x as int, d) == t);
            }
        }
        let c = step_cell(p, d, k);
        assert(in_grid(b.h as int, b.w as int, c.0, c.1));
        assert(rs[i].y as int == c.0 && rs[i].x as int == c.1);
        assert forall|a: int, e: int| 0 <= a < 4 && 0 <= e < 4 && a != e implies rs[a] != rs[e] by {
            if a == i {
                assert((robots[e].y as int, robots[e].x as int) != step_cell(p, d, k));
            } else if e == i {
                assert((robots[a].y as int, robots[a].x as int) != step_cell(p, d, k));
            }
        }
        assert forall|a: int| 0 <= a < 4 implies in_grid(b.h as int, b.w as int, (#[trigger] rs[a]).y as int, rs[a].x as int) by {
            if a != i {
                assert(rs[a] == robots[a]);
            }
        }
        if d == 0 || d == 2 {
            assert(rs[i].y != p.y);
        } else {
            assert(rs[i].x != p.x);
        }
    }
}

/// The robots after replaying `log` (newest move first) from `start`;
/// `None` when one of its moves cannot be made.
pub open spec fn replay(b: &Board, start: Seq<Pos>, log: Seq<Move>) -> Option<Seq<Pos>>
    decreases log.len(),
{
    if log.len() == 0 {
        Some(start)
    } else {
        match replay(b, start, log.drop_first()) {
            Some(rs) => if log[0].c < 4 && log[0].d < 4 {
                slide(b, rs, log[0].c as int, log[0].d as int)
            } else {
                None
            },
            None => None,
        }
    }
}

/// Robots `c2` are one slide away from robots `c`.
pub open spec fn is_succ(b: &Board, c: Seq<Pos>, c2: Seq<Pos>) -> bool {
    exists|i: int, d: int| 0 <= i < 4 && 0 <= d < 4 && #[trigger] slide(b, c, i, d) == Some(c2)
}

/// Robots `c` can be reached from the board's robots in exactly `n` slides.
pub open spec fn reachable_in(b: &Board, n: nat, c: Seq<Pos>) -> bool {
    exists|ms: Seq<Move>| ms.len() == n && #[trigger] replay(b, b.robots@, ms) == Some(c)
}

/// What is reached in `n + 1` slides is one slide away from something
/// reached in `n`.
proof fn lemma_reachable_step(b: &Board, n: nat, c2: Seq<Pos>)
    requires
        reachable_in(b, n + 1, c2),
    ensures
        exists|c: Seq<Pos>| reachable_in(b, n, c) && #[trigger] is_succ(b, c, c2),
{
    let ms = choose|ms: Seq<Move>| ms.len() == n + 1 && #[trigger] replay(b, b.robots@, ms) == Some(c2);
    let rest = ms.drop_first();
    let c = replay(b, b.robots@, rest)->0;
    assert(replay(b, b.robots@, rest) == Some(c));
    assert(reachable_in(b, n, c));
    assert(slide(b, c, ms[0].c as int, ms[0].d as int) == Some(c2));
    assert(is_succ(b, c, c2));
}

proof fn lemma_digit(a: int, r: int, a2: int, r2: int, m: int)
    requires
        m > 0,
        0 <= r < m,
        0 <= r2 < m,
        a * m + r == a2 * m + r2,
    ensures
        a == a2,
        r == r2,
{
    assert(a == a2) by (nonlinear_arith)
        requires
            m > 0,
            0 <= r < m,
            0 <= r2 < m,
            a * m + r == a2 * m + r2,
    ;
}

/// Distinct configurations on a grid of at most 127 by 127 cells have
/// distinct keys.
proof fn lemma_key_injective(b: &Board, c: Seq<Pos>, c2: Seq<Pos>)
    requires
        b.table_wf(),
        robots_ok(b, c),
        robots_ok(b, c2),
        robots_key(c) == robots_key(c2),
    ensures
        c == c2,
{
    let k = |p: Pos| p.y * 128 + p.x;
    assert forall|i: int| 0 <= i < 4 implies 0 <= #[trigger] k(c[i]) < 16384 && 0 <= k(c2[i]) < 16384 by {
        assert(in_grid(b.h as int, b.w as int, c[i].y as int, c[i].x as int));
        assert(in_grid(b.h as int, b.w as int, c2[i].y as int, c2[i].x as int));
    }
    assert(0 <= k(c[0]) < 16384 && 0 <= k(c2[0]) < 16384);
    assert(0 <= k(c[1]) < 16384 && 0 <= k(c2[1]) < 16384);
    assert(0 <= k(c[2]) < 16384 && 0 <= k(c2[2]) < 16384);
    assert(0 <= k(c[3]) < 16384 && 0 <= k(c2[3]) < 16384);
    lemma_digit((k(c[3]) * 16384 + k(c[2])) * 16384 + k(c[1]), k(c[0]), (k(c2[3]) * 16384 + k(c2[2])) * 16384 + k(c2[1]), k(c2[0]), 16384);
    lemma_digit(k(c[3]) * 16384 + k(c[2]), k(c[1]), k(c2[3]) * 16384 + k(c2[2]), k(c2[1]), 16384);
    lemma_digit(k(c[3]), k(c[2]), k(c2[3]), k(c2[2]), 16384);
    assert forall|i: int| 0 <= i < 4 implies c[i] == c2[i] by {
        assert(in_grid(b.h as int, b.w as int, c[i].y as int, c[i].x as int));
        assert(in_grid(b.h as int, b.w as int, c2[i].y as int, c2[i].x as int));
        lemma_digit(c[i].y as int, c[i].x as int, c2[i].y as int, c2[i].x as int, 128);
    }
    assert(c =~= c2);
}

/// The number that identifies a configuration of four robots in the
/// visited set.
pub open spec fn robots_key(robots: Seq<Pos>) -> int {
    let c0 = robots[0].y * 128 + robots[0].x;
    let c1 = robots[1].y * 128 + robots[1].x;
    let c2 = robots[2].y * 128 + robots[2].x;
    let c3 = robots[3].y * 128 + robots[3].x;
    ((c3 * 16384 + c2) * 16384 + c1) * 16384 + c0
}

/// The moves that have an effect, robot by robot and, for each robot,
/// direction by direction, among the first `n` of the sixteen.
pub open spec fn successor_moves(b: &Board, r: Seq<Pos>, n: int) -> Seq<Move>
    decreases n,
{
    if n <= 0 {
        Seq::empty()
    } else {
        let prev = successor_moves(b, r, n - 1);
        let i = (n - 1) / 4;
        let d = (n - 1) % 4;
        if slide(b, r, i, d) is Some {
            prev.push(Move { c: i as usize, d: d as usize })
        } else {
            prev
        }
    }
}

/// A node of the search: the robots' cells and the moves that led there.
pub struct State<'a> {
    pub bo: &'a Board,
    pub robots: Vec<Pos>,
    pub log: SinglyLinkedList,
}

impl<'a> State<'a> {
    /// The robots stand on distinct cells of a finished board, where the
    /// log, played from the board's robots, puts them.
    pub open spec fn wf(&self) -> bool {
        &&& self.bo.wf()
        &&& robots_ok(self.bo, self.robots@)
        &&& replay(self.bo, self.bo.robots@, self.log@) == Some(self.robots@)
    }

    /// The first state: the board's robots and an empty log.
    pub fn init_state(bo: &'a Board, _log: SinglyLinkedList) -> (r: State<'a>)
        requires
            bo.wf(),
        ensures
            r.wf(),
            r.bo == bo,
            r.robots@ == bo.robots@,
            r.log@ == Seq::<Move>::empty(),
    {
        let robots = copy_robots(&bo.robots);
        State { bo, robots, log: SinglyLinkedList::nil() }
    }

    /// Slides robot `robot_index` in direction `robot_dir`: the new state,
    /// with the move in front of its log, or `None` when the robot cannot
    /// move at all.
    pub fn move_to(&self, robot_index: usize, robot_dir: usize) -> (r: Option<State<'a>>)
        requires
            self.wf(),
            robot_index < 4,
            robot_dir < 4,
        ensures
            r is None <==> slide(self.bo, self.robots@, robot_index as int, robot_dir as int) is None,
            r matches Some(st) ==> {
                &&& slide(self.bo, self.robots@, robot_index as int, robot_dir as int) == Some(st.robots@)
                &&& st.log@ == seq![Move { c: robot_index, d: robot_dir }] + self.log@
                &&& st.bo == self.bo
                &&& st.wf()
            },
    {
        let ghost rs = self.robots@;
        let ghost b = self.bo;
        let ghost i = robot_index as int;
        let ghost d = robot_dir as int;
        let dy = direction_dy(robot_dir);
        let dx = direction_dx(robot_dir);
        let p = self.robots[robot_index];
        proof {
            lemma_slide_limit_bounds(b, rs, i, d, 0);
            lemma_slide_limit_bounds(b, rs, i, d, 4);
            lemma_wall_dist_bounds(b.walls@, b.h as int, b.w as int, p.y as int, p.x as int, d);
            assert(b.tab(p.y as int, p.x as int, d) <= 126);
        }
        let mut mind: i8 = self.bo.walldist[p.y as usize][p.x as usize][robot_dir] as i8;
        let mut j: usize = 0;
        while j < 4
            invariant
                self.wf(),
                rs == self.robots@,
                b == self.bo,
                robot_index < 4,
                robot_dir < 4,
                i == robot_index,
                d == robot_dir,
                p == rs[i],
                dy as int == dir_dy(d),
                dx as int == dir_dx(d),
                j <= 4,
                mind as int == slide_limit(b, rs, i, d, j as int),
            decreases 4 - j,
        {
            proof {
                lemma_slide_limit_bounds(b, rs, i, d, j as int);
            }
            if j != robot_index {
                let q = self.robots[j];
                let ddx = q.x - p.x;
                let ddy = q.y - p.y;
                if signum(ddx) == dx && signum(ddy) == dy {
                    let gap = if ddx == 0 {
                        abs_i8(ddy) - 1
                    } else {
                        abs_i8(ddx) - 1
                    };
                    if gap < mind {
                        mind = gap;
                    }
                }
            }
            j = j + 1;
        }
        if mind == 0 {
            return None;
        }
        proof {
            lemma_slide_safe(b, rs, i, d);
        }
        let np = Pos { y: p.y + dy * mind, x: p.x + dx * mind };
        let tolog = self.log.cons(Move { c: robot_index, d: robot_dir });
        let mut robots = copy_robots(&self.robots);
        robots.set(robot_index, np);
        proof {
            assert(robots@ =~= slide(b, rs, i, d)->0);
            assert(tolog@.drop_first() =~= self.log@);
        }
        Some(State { bo: self.bo, robots, log: tolog })
    }

    /// Every state one slide away, robot by robot and, for each robot,
    /// direction by direction; a slide without effect gives no state.
    pub fn enumerate_states(&self) -> (res: Vec<State<'a>>)
        requires
            self.wf(),
        ensures
            res@.len() == successor_moves(self.bo, self.robots@, 16).len(),
            forall|k: int| 0 <= k < res@.len() ==> {
                let m = successor_moves(self.bo, self.robots@, 16)[k];
                &&& (#[trigger] res@[k]).wf()
                &&& res@[k].bo == self.bo
                &&& slide(self.bo, self.robots@, m.c as int, m.d as int) == Some(res@[k].robots@)
                &&& res@[k].log@ == seq![m] + self.log@
                &&& res@[k].log@.len() == self.log@.len() + 1
            },
            forall|c: Seq<Pos>|
                #[trigger] is_succ(self.bo, self.robots@, c) ==> exists|k: int|
                    0 <= k < res@.len() && (#[trigger] res@[k]).robots@ == c,
    {
        let ghost b = self.bo;
        let ghost r = self.robots@;
        let mut res: Vec<State<'a>> = Vec::new();
        let mut i: usize = 0;
        while i < 4
            invariant
                self.wf(),
                b == self.bo,
                r == self.robots@,
                i <= 4,
                res@.len() == successor_moves(b, r, 4 * i as int).len(),
                forall|k: int| 0 <= k < res@.len() ==> {
                    let m = successor_moves(b, r, 4 * i as int)[k];
                    &&& (#[trigger] res@[k]).wf()
                    &&& res@[k].bo == b
                    &&& slide(b, r, m.c as int, m.d as int) == Some(res@[k].robots@)
                    &&& res@[k].log@ == seq![m] + self.log@
                    &&& res@[k].log@.len() == self.log@.len() + 1
                },
                forall|a: int, e: int|
                    0 <= a < i && 0 <= e < 4 && #[trigger] slide(b, r, a, e) is Some ==> exists|k: int|
                        0 <= k < res@.len() && (#[trigger] res@[k]).robots@ == slide(b, r, a, e)->0,
            decreases 4 - i,
        {
            let mut j: usize = 0;
            while j < 4
                invariant
                    self.wf(),
                    b == self.bo,
                    r == self.robots@,
                    i < 4,
                    j <= 4,
                    res@.len() == successor_moves(b, r, 4 * i + j).len(),
                    forall|k: int| 0 <= k < res@.len() ==> {
                        let m = successor_moves(b, r, 4 * i + j)[k];
                        &&& (#[trigger] res@[k]).wf()
                        &&& res@[k].bo == b
                        &&& slide(b, r, m.c as int, m.d as int) == Some(res@[k].robots@)
                        &&& res@[k].log@ == seq![m] + self.log@
                        &&& res@[k].log@.len() == self.log@.len() + 1
                    },
                    forall|a: int, e: int|
                        ((0 <= a < i && 0 <= e < 4) || (a == i && 0 <= e < j)) && #[trigger] slide(b, r, a, e) is Some
                            ==> exists|k: int| 0 <= k < res@.len() && (#[trigger] res@[k]).robots@ == slide(b, r, a, e)->0,
                decreases 4 - j,
            {
                let ghost before = res@;
                let ghost n = 4 * i + j + 1;
                proof {
                    assert((n - 1) / 4 == i && (n - 1) % 4 == j);
                }
                if let Some(ts) = self.move_to(i, j) {
                    res.push(ts);
                    proof {
                        let ms = successor_moves(b, r, n);
                        assert(ms == successor_moves(b, r, n - 1).push(Move { c: i, d: j }));
                        assert(res@[res@.len() - 1] == ts);
                        assert forall|k: int| 0 <= k < res@.len() implies {
                            let m = ms[k];
                            &&& (#[trigger] res@[k]).wf()
                            &&& res@[k].bo == b
                            &&& slide(b, r, m.c as int, m.d as int) == Some(res@[k].robots@)
                            &&& res@[k].log@ == seq![m] + self.log@
                            &&& res@[k].log@.len() == self.log@.len() + 1
                        } by {
                            if k < res@.len() - 1 {
                                assert(res@[k] == before[k]);
                            }
                        }
                        assert forall|a: int, e: int|
                            ((0 <= a < i && 0 <= e < 4) || (a == i && 0 <= e < j + 1)) && #[trigger] slide(b, r, a, e) is Some
                                implies exists|k: int| 0 <= k < res@.len() && (#[trigger] res@[k]).robots@ == slide(b, r, a, e)->0 by {
                            if a == i && e == j {
                                assert(res@[res@.len() - 1].robots@ == slide(b, r, a, e)->0);
                            } else {
                                let k = choose|k: int| 0 <= k < before.len() && (#[trigger] before[k]).robots@ == slide(b, r, a, e)->0;
                                assert(res@[k] == before[k]);
                            }
                        }
                    }
                } else {
                    proof {
                        assert(successor_moves(b, r, n) == successor_moves(b, r, n - 1));
                    }
                }
                j = j + 1;
            }
            i = i + 1;
        }
        proof {
            assert forall|c: Seq<Pos>|
                #[trigger] is_succ(b, r, c) implies exists|k: int| 0 <= k < res@.len() && (#[trigger] res@[k]).robots@ == c by {
                let (a, e) = choose|a: int, e: int| 0 <= a < 4 && 0 <= e < 4 && #[trigger] slide(b, r, a, e) == Some(c);
                assert(slide(b, r, a, e) is Some);
            }
        }
        res
    }

    /// The number that identifies this configuration in the visited set.
    pub fn key(&self) -> (r: u64)
        requires
            self.wf(),
        ensures
            r as int == robots_key(self.robots@),
    {
        let mut r: u64 = 0;
        let mut k: usize = 4;
        while k > 0
            invariant
                self.wf(),
                k <= 4,
                0 <= r < pow_cells(4 - k),
                r as int == partial_key(self.robots@, k as int),
            decreases k,
        {
            k = k - 1;
            let p = self.robots[k];
            let c = (p.y as u64) * 128 + p.x as u64;
            proof {
                assert(0 <= c < 16384);
                assert(r * 16384 + c < pow_cells(4 - k)) by (nonlinear_arith)
                    requires
                        0 <= r < pow_cells(3 - k),
                        pow_cells(4 - k) == pow_cells(3 - k) * 16384,
                        0 <= c < 16384,
                ;
            }
            r = r * 16384 + c;
        }
        proof {
            let rb = self.robots@;
            assert(partial_key(rb, 4) == 0);
            assert(partial_key(rb, 3) == rb[3].y * 128 + rb[3].x);
            assert(partial_key(rb, 2) == partial_key(rb, 3) * 16384 + rb[2].y * 128 + rb[2].x);
            assert(partial_key(rb, 1) == partial_key(rb, 2) * 16384 + rb[1].y * 128 + rb[1].x);
            assert(partial_key(rb, 0) == partial_key(rb, 1) * 16384 + rb[0].y * 128 + rb[0].x);
        }
        r
    }
}

/// `16384` to the power `n`, for `n <= 4`.
pub open spec fn pow_cells(n: int) -> int {
    if n <= 0 {
        1
    } else if n == 1 {
        16384
    } else if n == 2 {
        268435456
    } else if n == 3 {
        4398046511104
    } else {
        72057594037927936
    }
}

/// The key of robots `k..4` alone.
pub open spec fn partial_key(robots: Seq<Pos>, k: int) -> int
    decreases 4 - k,
{
    if k >= 4 {
        0
    } else {
        partial_key(robots, k + 1) * 16384 + robots[k].y * 128 + robots[k].x
    }
}

fn signum(v: i8) -> (r: i8)
    ensures
        r as int == sgn(v as int),
{
    if v > 0 {
        1
    } else if v < 0 {
        -1
    } else {
        0
    }
}

fn abs_i8(v: i8) -> (r: i8)
    requires
        v > -128,
    ensures
        r as int == abs(v as int),
{
    if v < 0 {
        -v
    } else {
        v
    }
}

fn copy_robots(v: &Vec<Pos>) -> (r: Vec<Pos>)
    ensures
        r@ == v@,
{
    let mut r: Vec<Pos> = Vec::new();
    let mut k: usize = 0;
    while k < v.len()
        invariant
            k <= v@.len(),
            r@ == v@.subrange(0, k as int),
        decreases v@.len() - k,
    {
        r.push(v[k]);
        k = k + 1;
    }
    assert(r@ =~= v@);
    r
}

/// A discovery table of `h` rows, `w` cells a row and four robots a cell.
pub open spec fn found_shape(found: Seq<Vec<Vec<bool>>>, h: int, w: int) -> bool {
    &&& found.len() == h
    &&& forall|y: int| 0 <= y < h ==> (#[trigger] found[y]@).len() == w
    &&& forall|y: int, x: int| 0 <= y < h && 0 <= x < w ==> (#[trigger] found[y]@[x]@).len() == 4
}

/// The goal robot stands on the goal cell once `moves` (newest first) are
/// played from the board's robots.
pub open spec fn reaches_goal(bo: &Board, goal: (usize, Pos), moves: Seq<Move>) -> bool {
    &&& goal.0 < 4
    &&& replay(bo, bo.robots@, moves) matches Some(rs) && rs[goal.0 as int] == goal.1
}

fn new_found_table(h: usize, w: usize) -> (r: Vec<Vec<Vec<bool>>>)
    ensures
        found_shape(r@, h as int, w as int),
        forall|y: int, x: int, i: int| 0 <= y < h && 0 <= x < w && 0 <= i < 4 ==> !(#[trigger] r@[y]@[x]@[i]),
{
    let mut r: Vec<Vec<Vec<bool>>> = Vec::new();
    let mut y: usize = 0;
    while y < h
        invariant
            y <= h,
            found_shape(r@, y as int, w as int),
            forall|yy: int, x: int, i: int| 0 <= yy < y && 0 <= x < w && 0 <= i < 4 ==> !(#[trigger] r@[yy]@[x]@[i]),
        decreases h - y,
    {
        let mut row: Vec<Vec<bool>> = Vec::new();
        let mut x: usize = 0;
        while x < w
            invariant
                x <= w,
                row@.len() == x,
                forall|xx: int| 0 <= xx < x ==> (#[trigger] row@[xx]@).len() == 4,
                forall|xx: int, i: int| 0 <= xx < x && 0 <= i < 4 ==> !(#[trigger] row@[xx]@[i]),
            decreases w - x,
        {
            row.push(vec![false; 4]);
            x = x + 1;
        }
        r.push(row);
        y = y + 1;
    }
    r
}

spec fn in_states(states: Seq<State>, c: Seq<Pos>) -> bool {
    exists|k: int| 0 <= k < states.len() && (#[trigger] states[k]).robots@ == c
}

/// `gone` holds the keys of the configurations `seen`, all on the board.
spec fn gone_models(bo: &Board, gone: Set<u64>, seen: Set<Seq<Pos>>) -> bool {
    &&& forall|c: Seq<Pos>| #[trigger] seen.contains(c) ==> robots_ok(bo, c) && gone.contains(robots_key(c) as u64)
    &&& forall|key: u64| #[trigger] gone.contains(key) ==> exists|c: Seq<Pos>| seen.contains(c) && robots_key(c) == key
}

/// Every pair of a configuration of `seen` is marked in `found`.
spec fn found_covers(found: Seq<Vec<Vec<bool>>>, seen: Set<Seq<Pos>>) -> bool {
    forall|c: Seq<Pos>, i: int|
        #![trigger seen.contains(c), c[i]]
        seen.contains(c) && 0 <= i < 4 ==> found[c[i].y as int]@[c[i].x as int]@[i]
}

/// No configuration reached in fewer than `n` slides puts the goal robot on
/// the goal cell.
pub open spec fn goal_minimal(bo: &Board, goal: (usize, Pos), n: int) -> bool {
    forall|m: nat, c: Seq<Pos>| m < n && #[trigger] reachable_in(bo, m, c) ==> c[goal.0 as int] != goal.1
}

/// Every configuration reached in fewer than `d` slides is in `seen`.
spec fn seen_below(bo: &Board, seen: Set<Seq<Pos>>, d: int) -> bool {
    forall|m: nat, c: Seq<Pos>| m < d && #[trigger] reachable_in(bo, m, c) ==> seen.contains(c)
}

proof fn lemma_reachable_zero(bo: &Board, c: Seq<Pos>)
    requires
        reachable_in(bo, 0, c),
    ensures
        c == bo.robots@,
{
    let ms = choose|ms: Seq<Move>| ms.len() == 0 && #[trigger] replay(bo, bo.robots@, ms) == Some(c);
}

proof fn lemma_state_reachable(st: &State)
    requires
        st.wf(),
    ensures
        reachable_in(st.bo, st.log@.len(), st.robots@),
{
    assert(replay(st.bo, st.bo.robots@, st.log@) == Some(st.robots@));
}

/// Appends to `next` the states of `succ` whose configuration is not in
/// `seen`, whose keys `gone` holds.
fn push_unseen<'a>(
    succ: Vec<State<'a>>,
    gone: &HashSet<u64>,
    next: &mut Vec<State<'a>>,
    Ghost(bo): Ghost<&Board>,
    Ghost(seen): Ghost<Set<Seq<Pos>>>,
    Ghost(depth): Ghost<int>,
)
    requires
        bo.wf(),
        gone_models(bo, gone@, seen),
        forall|k: int| 0 <= k < succ@.len() ==> {
            &&& (#[trigger] succ@[k]).wf()
            &&& succ@[k].bo == bo
            &&& succ@[k].log@.len() == depth + 1
        },
        forall|k: int| 0 <= k < old(next)@.len() ==> {
            &&& (#[trigger] old(next)@[k]).wf()
            &&& old(next)@[k].bo == bo
            &&& old(next)@[k].log@.len() == depth + 1
        },
    ensures
        forall|k: int| 0 <= k < final(next)@.len() ==> {
            &&& (#[trigger] final(next)@[k]).wf()
            &&& final(next)@[k].bo == bo
            &&& final(next)@[k].log@.len() == depth + 1
        },
        forall|c: Seq<Pos>| in_states(succ@, c) ==> seen.contains(c) || in_states(final(next)@, c),
        forall|c: Seq<Pos>| in_states(old(next)@, c) ==> in_states(final(next)@, c),
{
    broadcast use vstd::std_specs::hash::group_hash_axioms;

    let ghost next0 = next@;
    let mut succ = succ;
    let ghost all = succ@;
    while succ.len() > 0
        invariant
            bo.wf(),
            gone_models(bo, gone@, seen),
            forall|k: int| 0 <= k < succ@.len() ==> {
                &&& (#[trigger] succ@[k]).wf()
                &&& succ@[k].bo == bo
                &&& succ@[k].log@.len() == depth + 1
            },
            forall|k: int| 0 <= k < next@.len() ==> {
                &&& (#[trigger] next@[k]).wf()
                &&& next@[k].bo == bo
                &&& next@[k].log@.len() == depth + 1
            },
            forall|c: Seq<Pos>| in_states(all, c) ==> seen.contains(c) || in_states(next@, c) || in_states(succ@, c),
            forall|c: Seq<Pos>| in_states(next0, c) ==> in_states(next@, c),
        decreases succ@.len(),
    {
        let ghost succ_before = succ@;
        let ghost next_before = next@;
        let ts = succ.remove(0);
        let tkey = ts.key();
        if gone.contains(&tkey) {
            proof {
                let c = choose|c: Seq<Pos>| seen.contains(c) && robots_key(c) == tkey;
                lemma_key_injective(bo, c, ts.robots@);
            }
        } else {
            next.push(ts);
        }
        proof {
            assert forall|c: Seq<Pos>| in_states(next_before, c) implies in_states(next@, c) by {
                let j = choose|j: int| 0 <= j < next_before.len() && (#[trigger] next_before[j]).robots@ == c;
                assert(next@[j] == next_before[j]);
            }
            assert forall|c: Seq<Pos>| in_states(all, c) implies seen.contains(c) || in_states(next@, c) || in_states(succ@, c) by {
                if in_states(succ_before, c) && !in_states(next_before, c) {
                    let j = choose|j: int| 0 <= j < succ_before.len() && (#[trigger] succ_before[j]).robots@ == c;
                    if j > 0 {
                        assert(succ@[j - 1] == succ_before[j]);
                    } else if !seen.contains(c) {
                        assert(next@[next@.len() - 1] == ts);
                    }
                }
            }
        }
    }
}

/// `t` holds `(y, 4 * x + i)` for each pair `(i, (y, x))` marked in `found`,
/// and `count` of them.
spec fn count_model(found: Seq<Vec<Vec<bool>>>, h: int, w: int, t: Set<(int, int)>, count: int) -> bool {
    &&& t.finite()
    &&& t.len() == count
    &&& t.subset_of(grid_cells(h, 4 * w))
    &&& forall|y: int, x: int, i: int|
        0 <= y < h && 0 <= x < w && 0 <= i < 4 ==> (#[trigger] found[y]@[x]@[i] <==> t.contains((y, 4 * x + i)))
}

/// Each pair marked in `found` is reached within `n` slides.
spec fn witnessed(bo: &Board, found: Seq<Vec<Vec<bool>>>, n: int) -> bool {
    forall|y: int, x: int, i: int|
        0 <= y < bo.h && 0 <= x < bo.w && 0 <= i < 4 && #[trigger] found[y]@[x]@[i] ==> exists|m: nat, c: Seq<Pos>|
            m <= n && reachable_in(bo, m, c) && c[i].y as int == y && c[i].x as int == x
}

/// Every (robot, cell) pair that can be reached within `target` slides can be
/// reached within `n` slides.
pub open spec fn depth_maximal(bo: &Board, target: int, n: int) -> bool {
    forall|m: nat, c: Seq<Pos>, i: int|
        #![trigger reachable_in(bo, m, c), pair_within(bo, n, i, c[i])]
        m <= target && 0 <= i < 4 && reachable_in(bo, m, c) ==> pair_within(bo, n, i, c[i])
}

/// Robot `i` can be put on cell `p` within `n` slides.
pub open spec fn pair_within(bo: &Board, n: int, i: int, p: Pos) -> bool {
    exists|m: nat, c: Seq<Pos>| m <= n && reachable_in(bo, m, c) && c[i] == p
}

proof fn lemma_replay_ok(bo: &Board, ms: Seq<Move>, c: Seq<Pos>)
    requires
        bo.wf(),
        replay(bo, bo.robots@, ms) == Some(c),
    ensures
        robots_ok(bo, c),
    decreases ms.len(),
{
    if ms.len() > 0 {
        let rs = replay(bo, bo.robots@, ms.drop_first())->0;
        lemma_replay_ok(bo, ms.drop_first(), rs);
        lemma_slide_safe(bo, rs, ms[0].c as int, ms[0].d as int);
    }
}

proof fn lemma_reachable_ok(bo: &Board, m: nat, c: Seq<Pos>)
    requires
        bo.wf(),
        reachable_in(bo, m, c),
    ensures
        robots_ok(bo, c),
{
    let ms = choose|ms: Seq<Move>| ms.len() == m && #[trigger] replay(bo, bo.robots@, ms) == Some(c);
    lemma_replay_ok(bo, ms, c);
}

/// A finite set that holds at least as many elements as a set around it
/// holds all of it.
proof fn lemma_full_subset(t: Set<(int, int)>, g: Set<(int, int)>, n: int)
    requires
        t.subset_of(g),
        g.finite(),
        g.len() <= n,
        t.len() >= n,
    ensures
        g.subset_of(t),
{
    assert forall|e: (int, int)| g.contains(e) implies t.contains(e) by {
        if !t.contains(e) {
            assert(t.subset_of(g.remove(e)));
            lemma_len_subset(t, g.remove(e));
        }
    }
}

proof fn lemma_found_all_witnessed(bo: &Board, found: Seq<Vec<Vec<bool>>>, t: Set<(int, int)>, target: int, n: int)
    requires
        bo.wf(),
        witnessed(bo, found, n),
        grid_cells(bo.h as int, 4 * bo.w as int).subset_of(t),
        forall|y: int, x: int, i: int|
            0 <= y < bo.h && 0 <= x < bo.w && 0 <= i < 4 ==> (#[trigger] found[y]@[x]@[i] <==> t.contains((y, 4 * x + i))),
    ensures
        depth_maximal(bo, target, n),
{
    assert forall|m: nat, c: Seq<Pos>, i: int|
        #![trigger reachable_in(bo, m, c), pair_within(bo, n, i, c[i])]
        m <= target && 0 <= i < 4 && reachable_in(bo, m, c) implies pair_within(bo, n, i, c[i]) by {
        lemma_reachable_ok(bo, m, c);
        let (y, x) = (c[i].y as int, c[i].x as int);
        assert(grid_cells(bo.h as int, 4 * bo.w as int).contains((y, 4 * x + i)));
        assert(found[y]@[x]@[i]);
        let (m2, c2) = choose|m2: nat, c2: Seq<Pos>| m2 <= n && reachable_in(bo, m2, c2) && c2[i].y as int == y && c2[i].x as int == x;
        assert(c2[i] == c[i]);
        assert(m2 <= n && reachable_in(bo, m2, c2) && c2[i] == c[i]);
    }
    assert(depth_maximal(bo, target, n));
}

proof fn lemma_found_all_witnessed_seen(
    bo: &Board,
    found: Seq<Vec<Vec<bool>>>,
    seen: Set<Seq<Pos>>,
    target: int,
    n: int,
)
    requires
        bo.wf(),
        witnessed(bo, found, n),
        found_shape(found, bo.h as int, bo.w as int),
        found_covers(found, seen),
        seen_below(bo, seen, target + 1),
    ensures
        depth_maximal(bo, target, n),
{
    assert forall|m: nat, c: Seq<Pos>, i: int|
        #![trigger reachable_in(bo, m, c), pair_within(bo, n, i, c[i])]
        m <= target && 0 <= i < 4 && reachable_in(bo, m, c) implies pair_within(bo, n, i, c[i]) by {
        lemma_reachable_ok(bo, m, c);
        assert(seen.contains(c));
        let (y, x) = (c[i].y as int, c[i].x as int);
        assert(found[y]@[x]@[i]);
        let (m2, c2) = choose|m2: nat, c2: Seq<Pos>| m2 <= n && reachable_in(bo, m2, c2) && c2[i].y as int == y && c2[i].x as int == x;
        assert(c2[i] == c[i]);
        assert(m2 <= n && reachable_in(bo, m2, c2) && c2[i] == c[i]);
    }
    assert(depth_maximal(bo, target, n));
}

/// Marking a processed configuration as seen keeps the search's
/// bookkeeping true.
proof fn lemma_seen_insert(
    bo: &Board,
    gone_old: Set<u64>,
    gone_new: Set<u64>,
    seen: Set<Seq<Pos>>,
    r: Seq<Pos>,
    key: u64,
    found: Seq<Vec<Vec<bool>>>,
    layer: Seq<State>,
    next: Seq<State>,
    depth: int,
)
    requires
        gone_new == gone_old.insert(key),
        key as int == robots_key(r),
        robots_ok(bo, r),
        gone_models(bo, gone_old, seen),
        found_covers(found, seen),
        forall|j: int| 0 <= j < 4 ==> found[r[j].y as int]@[r[j].x as int]@[j],
        forall|c: Seq<Pos>, c2: Seq<Pos>|
            #[trigger] seen.contains(c) && #[trigger] is_succ(bo, c, c2) ==> seen.contains(c2) || in_states(layer, c2)
                || in_states(next, c2),
        forall|c2: Seq<Pos>| #[trigger] is_succ(bo, r, c2) ==> seen.contains(c2) || in_states(next, c2),
        seen_below(bo, seen, depth),
    ensures
        gone_models(bo, gone_new, seen.insert(r)),
        found_covers(found, seen.insert(r)),
        forall|c: Seq<Pos>, c2: Seq<Pos>|
            #[trigger] seen.insert(r).contains(c) && #[trigger] is_succ(bo, c, c2) ==> seen.insert(r).contains(c2)
                || in_states(layer, c2) || in_states(next, c2),
        seen_below(bo, seen.insert(r), depth),
{
    let s2 = seen.insert(r);
    assert forall|c: Seq<Pos>| #[trigger] s2.contains(c) implies robots_ok(bo, c) && gone_new.contains(robots_key(c) as u64) by {
        if c != r {
            assert(seen.contains(c));
        }
    }
    assert forall|kk: u64| #[trigger] gone_new.contains(kk) implies exists|c: Seq<Pos>| s2.contains(c) && robots_key(c) == kk by {
        if kk != key {
            let c = choose|c: Seq<Pos>| seen.contains(c) && robots_key(c) == kk;
            assert(s2.contains(c));
        } else {
            assert(s2.contains(r));
        }
    }
    assert forall|c: Seq<Pos>, j: int|
        #![trigger s2.contains(c), c[j]]
        s2.contains(c) && 0 <= j < 4 implies found[c[j].y as int]@[c[j].x as int]@[j] by {
        if c != r {
            assert(seen.contains(c));
        }
    }
    assert forall|c: Seq<Pos>, c2: Seq<Pos>|
        #[trigger] s2.contains(c) && #[trigger] is_succ(bo, c, c2) implies s2.contains(c2) || in_states(layer, c2)
            || in_states(next, c2) by {
        if c != r {
            assert(seen.contains(c));
        }
    }
    assert forall|m: nat, c: Seq<Pos>| m < depth && #[trigger] reachable_in(bo, m, c) implies s2.contains(c) by {
        assert(seen.contains(c));
    }
}

/// Breadth-first search from the board's robots, depth by depth up to
/// `target`, for the last (robot, cell) pair to be reached for the first
/// time. Returns that robot and cell, and the moves (newest first) of the
/// state where it was reached: no shorter sequence of slides puts that robot
/// on that cell. The search stops early once a new pair is reached at depth
/// `target`, or once every pair has been reached.
#[verifier::rlimit(50)]
pub fn bfs(target: u8, bo: &Board) -> (res: ((usize, Pos), Vec<Move>))
    requires
        bo.wf(),
    ensures
        reaches_goal(bo, res.0, res.1@),
        res.1@.len() <= target,
        goal_minimal(bo, res.0, res.1@.len() as int),
        depth_maximal(bo, target as int, res.1@.len() as int),
        target == 0 ==> res.0 == (0usize, bo.robots@[0]),
{
    broadcast use vstd::std_specs::hash::group_hash_axioms;

    let log = SinglyLinkedList::nil();
    let init = State::init_state(bo, log);
    let mut best = init.log.share();
    let mut goal: (usize, Pos) = (0, init.robots[0]);
    let mut gone: HashSet<u64> = HashSet::new();
    let ghost mut seen: Set<Seq<Pos>> = Set::empty();
    let mut found = new_found_table(bo.h, bo.w);
    let mut found_count: usize = 0;
    let ghost mut tset: Set<(int, int)> = Set::empty();
    assert(1 <= bo.h * bo.w <= 127 * 127) by (nonlinear_arith)
        requires
            1 <= bo.h <= 127,
            1 <= bo.w <= 127,
    ;
    let total = bo.h * bo.w * 4;
    proof {
        lemma_grid_cells(bo.h as int, 4 * bo.w as int);
        assert(bo.h * (4 * bo.w) == total) by (nonlinear_arith)
            requires
                total == bo.h * bo.w * 4,
        ;
    }
    let mut layer: Vec<State> = vec![init];
    let mut depth: u16 = 0;
    let mut done = false;
    proof {
        assert forall|c: Seq<Pos>| reachable_in(bo, 0, c) implies seen.contains(c) || in_states(layer@, c) by {
            lemma_reachable_zero(bo, c);
            assert(layer@[0].robots@ == c);
        }
        assert(gone_models(bo, gone@, seen));
    }
    while !done && depth <= target as u16
        invariant
            bo.wf(),
            found_shape(found@, bo.h as int, bo.w as int),
            total == bo.h * bo.w * 4,
            !done ==> found_count < total,
            depth <= target as u16 + 1,
            forall|k: int| 0 <= k < layer@.len() ==> {
                &&& (#[trigger] layer@[k]).wf()
                &&& layer@[k].bo == bo
                &&& layer@[k].log@.len() == depth
            },
            reaches_goal(bo, goal, best@),
            best@.len() <= target,
            goal_minimal(bo, goal, best@.len() as int),
            target == 0 && !done ==> depth == 0 && layer@.len() == 1 && found_count == 0 && seen == Set::<Seq<Pos>>::empty(),
            target == 0 && done ==> goal == (0usize, bo.robots@[0]),
            count_model(found@, bo.h as int, bo.w as int, tset, found_count as int),
            witnessed(bo, found@, best@.len() as int),
            best@.len() <= depth,
            done ==> depth_maximal(bo, target as int, best@.len() as int),
            grid_cells(bo.h as int, 4 * bo.w as int).finite(),
            grid_cells(bo.h as int, 4 * bo.w as int).len() <= total,
            gone_models(bo, gone@, seen),
            found_covers(found@, seen),
            !done ==> seen_below(bo, seen, depth as int),
            !done ==> forall|c: Seq<Pos>|
                #[trigger] reachable_in(bo, depth as nat, c) ==> seen.contains(c) || in_states(layer@, c),
            !done ==> forall|c: Seq<Pos>, c2: Seq<Pos>|
                #[trigger] seen.contains(c) && #[trigger] is_succ(bo, c, c2) ==> seen.contains(c2) || in_states(layer@, c2),
        decreases target as u16 + 1 - depth,
    {
        let mut next: Vec<State> = Vec::new();
        let mut k: usize = 0;
        while k < layer.len() && !done
            invariant
                bo.wf(),
                found_shape(found@, bo.h as int, bo.w as int),
                total == bo.h * bo.w * 4,
                !done ==> found_count < total,
                depth <= target as u16,
                k <= layer@.len(),
                forall|k: int| 0 <= k < layer@.len() ==> {
                    &&& (#[trigger] layer@[k]).wf()
                    &&& layer@[k].bo == bo
                    &&& layer@[k].log@.len() == depth
                },
                forall|k: int| 0 <= k < next@.len() ==> {
                    &&& (#[trigger] next@[k]).wf()
                    &&& next@[k].bo == bo
                    &&& next@[k].log@.len() == depth + 1
                },
                reaches_goal(bo, goal, best@),
                best@.len() <= target,
                goal_minimal(bo, goal, best@.len() as int),
                target == 0 && !done ==> k == 0 && found_count == 0 && seen == Set::<Seq<Pos>>::empty(),
                target == 0 && done ==> goal == (0usize, bo.robots@[0]),
                count_model(found@, bo.h as int, bo.w as int, tset, found_count as int),
                witnessed(bo, found@, best@.len() as int),
                best@.len() <= depth,
                done ==> depth_maximal(bo, target as int, best@.len() as int),
                grid_cells(bo.h as int, 4 * bo.w as int).finite(),
                grid_cells(bo.h as int, 4 * bo.w as int).len() <= total,
                gone_models(bo, gone@, seen),
                found_covers(found@, seen),
                !done ==> seen_below(bo, seen, depth as int),
                !done ==> forall|c: Seq<Pos>|
                    #[trigger] reachable_in(bo, depth as nat, c) ==> seen.contains(c) || in_states(layer@, c),
                !done ==> forall|c: Seq<Pos>, c2: Seq<Pos>|
                    #[trigger] seen.contains(c) && #[trigger] is_succ(bo, c, c2) ==> seen.contains(c2) || in_states(layer@, c2)
                        || in_states(next@, c2),
                !done ==> forall|j: int| 0 <= j < k ==> seen.contains((#[trigger] layer@[j]).robots@),
            decreases layer@.len() - k,
        {
            let st = &layer[k];
            let key = st.key();
            if gone.contains(&key) {
                proof {
                    let c = choose|c: Seq<Pos>| seen.contains(c) && robots_key(c) == key;
                    lemma_key_injective(bo, c, st.robots@);
                }
            } else {
                proof {
                    assert(!seen.contains(st.robots@));
                }
                let mut i: usize = 0;
                while i < 4 && !done
                    invariant
                        bo.wf(),
                        st.wf(),
                        st.bo == bo,
                        st.log@.len() == depth,
                        depth <= target as u16,
                        i <= 4,
                        found_shape(found@, bo.h as int, bo.w as int),
                        total == bo.h * bo.w * 4,
                        !done ==> found_count < total,
                        reaches_goal(bo, goal, best@),
                        best@.len() <= target,
                        goal_minimal(bo, goal, best@.len() as int),
                        target == 0 && !done ==> i == 0 && found_count == 0,
                        target == 0 && done ==> goal == (0usize, bo.robots@[0]),
                        count_model(found@, bo.h as int, bo.w as int, tset, found_count as int),
                        witnessed(bo, found@, best@.len() as int),
                        best@.len() <= depth,
                        done ==> depth_maximal(bo, target as int, best@.len() as int),
                        grid_cells(bo.h as int, 4 * bo.w as int).finite(),
                        grid_cells(bo.h as int, 4 * bo.w as int).len() <= total,
                        found_covers(found@, seen),
                        gone_models(bo, gone@, seen),
                        !done ==> seen_below(bo, seen, depth as int),
                        !done ==> forall|j: int|
                            0 <= j < i ==> found@[st.robots@[j].y as int]@[st.robots@[j].x as int]@[j],
                    decreases 4 - i,
                {
                    let p = st.robots[i];
                    let y = p.y as usize;
                    let x = p.x as usize;
                    proof {
                        if target == 0 && !done {
                            tset.lemma_len0_is_empty();
                            assert(!found@[y as int]@[x as int]@[i as int]);
                            assert(replay(bo, bo.robots@, st.log@) == Some(bo.robots@));
                        }
                    }
                    if !found[y][x][i] {
                        let ghost found_before = found@;
                        proof {
                            assert forall|m: nat, c: Seq<Pos>|
                                m < depth && #[trigger] reachable_in(bo, m, c) implies c[i as int] != p by {
                                assert(seen.contains(c));
                                assert(found@[c[i as int].y as int]@[c[i as int].x as int]@[i as int]);
                                assert(robots_ok(bo, c));
                            }
                        }
                        found[y][x][i] = true;
                        proof {
                            assert forall|yy: int, xx: int, ii: int|
                                0 <= yy < bo.h && 0 <= xx < bo.w && 0 <= ii < 4 implies #[trigger] found@[yy]@[xx]@[ii] == (
                                found_before[yy]@[xx]@[ii] || (yy == y && xx == x && ii == i)) by {
                                if yy != y {
                                    assert(found@[yy] == found_before[yy]);
                                } else if xx != x {
                                    assert(found@[yy]@[xx] == found_before[yy]@[xx]);
                                }
                            }
                            assert(!tset.contains((y as int, 4 * x + i)));
                            tset = tset.insert((y as int, 4 * x + i));
                            lemma_state_reachable(st);
                            assert forall|c: Seq<Pos>, j: int|
                                #![trigger seen.contains(c), c[j]]
                                seen.contains(c) && 0 <= j < 4 implies found@[c[j].y as int]@[c[j].x as int]@[j] by {
                                assert(found_before[c[j].y as int]@[c[j].x as int]@[j]);
                                assert(robots_ok(bo, c));
                                if c[j].y as int != y as int {
                                    assert(found@[c[j].y as int] == found_before[c[j].y as int]);
                                } else if c[j].x as int != x as int {
                                    assert(found@[c[j].y as int]@[c[j].x as int] == found_before[c[j].y as int]@[c[j].x as int]);
                                }
                            }
                            assert forall|j: int|
                                0 <= j < i + 1 implies found@[st.robots@[j].y as int]@[st.robots@[j].x as int]@[j] by {
                                if j < i {
                                    assert(found_before[st.robots@[j].y as int]@[st.robots@[j].x as int]@[j]);
                                    if st.robots@[j].y as int != y as int {
                                        assert(found@[st.robots@[j].y as int] == found_before[st.robots@[j].y as int]);
                                    } else if st.robots@[j].x as int != x as int {
                                        assert(found@[st.robots@[j].y as int]@[st.robots@[j].x as int]
                                            == found_before[st.robots@[j].y as int]@[st.robots@[j].x as int]);
                                    }
                                }
                            }
                        }
                        found_count = found_count + 1;
                        let ghost best_before = best@.len();
                        best = st.log.share();
                        goal = (i, p);
                        proof {
                            assert forall|yy: int, xx: int, ii: int|
                                0 <= yy < bo.h && 0 <= xx < bo.w && 0 <= ii < 4 && #[trigger] found@[yy]@[xx]@[ii] implies exists|
                                m: nat,
                                c: Seq<Pos>,
                            | m <= best@.len() && reachable_in(bo, m, c) && c[ii].y as int == yy && c[ii].x as int == xx by {
                                if yy == y && xx == x && ii == i {
                                    assert(reachable_in(bo, depth as nat, st.robots@));
                                } else {
                                    assert(found_before[yy]@[xx]@[ii]);
                                }
                            }
                        }
                        if depth >= target as u16 || found_count >= total {
                            done = true;
                            proof {
                                if depth >= target as u16 {
                                    assert forall|m: nat, c: Seq<Pos>, ii: int|
                                        #![trigger reachable_in(bo, m, c), pair_within(bo, best@.len() as int, ii, c[ii])]
                                        m <= target && 0 <= ii < 4 && reachable_in(bo, m, c) implies pair_within(
                                            bo,
                                            best@.len() as int,
                                            ii,
                                            c[ii],
                                        ) by {
                                        assert(reachable_in(bo, m, c) && c[ii] == c[ii]);
                                    }
                                } else {
                                    lemma_full_subset(tset, grid_cells(bo.h as int, 4 * bo.w as int), total as int);
                                    lemma_found_all_witnessed(bo, found@, tset, target as int, best@.len() as int);
                                }
                            }
                        }
                    } else {
                        proof {
                            assert(found@[st.robots@[i as int].y as int]@[st.robots@[i as int].x as int]@[i as int]);
                        }
                    }
                    i = i + 1;
                }
                if !done {
                    let succ = st.enumerate_states();
                    let ghost next_before = next@;
                    push_unseen(succ, &gone, &mut next, Ghost(bo), Ghost(seen), Ghost(depth as int));
                    proof {
                        assert forall|c2: Seq<Pos>|
                            #[trigger] is_succ(bo, st.robots@, c2) implies seen.contains(c2) || in_states(next@, c2) by {
                            let j = choose|j: int| 0 <= j < succ@.len() && (#[trigger] succ@[j]).robots@ == c2;
                            assert(in_states(succ@, c2));
                        }
                        assert forall|c: Seq<Pos>, c2: Seq<Pos>|
                            #[trigger] seen.contains(c) && #[trigger] is_succ(bo, c, c2) implies seen.contains(c2)
                                || in_states(layer@, c2) || in_states(next@, c2) by {
                            if in_states(next_before, c2) {
                                assert(in_states(next@, c2));
                            }
                        }
                    }
                    let ghost gone_before = gone@;
                    gone.insert(key);
                    proof {
                        let old_seen = seen;
                        seen = seen.insert(st.robots@);
                        lemma_seen_insert(bo, gone_before, gone@, old_seen, st.robots@, key, found@, layer@, next@, depth as int);
                    }
                }
            }
            proof {
                if !done {
                    assert(seen.contains(layer@[k as int].robots@));
                }
            }
            k = k + 1;
        }
        proof {
            if !done {
                assert forall|m: nat, c: Seq<Pos>|
                    m < depth + 1 && #[trigger] reachable_in(bo, m, c) implies seen.contains(c) by {
                    if m == depth {
                        if in_states(layer@, c) {
                            let j = choose|j: int| 0 <= j < layer@.len() && (#[trigger] layer@[j]).robots@ == c;
                        }
                    }
                }
                assert forall|c2: Seq<Pos>|
                    #[trigger] reachable_in(bo, (depth + 1) as nat, c2) implies seen.contains(c2) || in_states(next@, c2) by {
                    lemma_reachable_step(bo, depth as nat, c2);
                    let c = choose|c: Seq<Pos>| reachable_in(bo, depth as nat, c) && #[trigger] is_succ(bo, c, c2);
                    assert(seen.contains(c));
                    if in_states(layer@, c2) {
                        let j = choose|j: int| 0 <= j < layer@.len() && (#[trigger] layer@[j]).robots@ == c2;
                    }
                }
                assert forall|c: Seq<Pos>, c2: Seq<Pos>|
                    #[trigger] seen.contains(c) && #[trigger] is_succ(bo, c, c2) implies seen.contains(c2) || in_states(next@, c2) by {
                    if in_states(layer@, c2) {
                        let j = choose|j: int| 0 <= j < layer@.len() && (#[trigger] layer@[j]).robots@ == c2;
                    }
                }
            }
        }
        let ghost next_depth = (depth + 1) as nat;
        layer = next;
        depth = depth + 1;
        proof {
            assert(depth as nat == next_depth);
        }
    }
    proof {
        if !done {
            lemma_found_all_witnessed_seen(bo, found@, seen, target as int, best@.len() as int);
        }
    }
    (goal, best.to_vec())
}

proof fn lemma_slide_limit_min(b: &Board, robots: Seq<Pos>, i: int, d: int, n: int)
    ensures
        slide_limit(b, robots, i, d, n) <= b.tab(robots[i].y as int, robots[i].x as int, d),
        forall|j: int|
            0 <= j < n && j != i && in_path(robots[i], #[trigger] robots[j], d) ==> slide_limit(b, robots, i, d, n)
                <= path_gap(robots[i], robots[j]),
        slide_limit(b, robots, i, d, n) == b.tab(robots[i].y as int, robots[i].x as int, d) || exists|j: int|
            0 <= j < n && j != i && in_path(robots[i], #[trigger] robots[j], d) && slide_limit(b, robots, i, d, n)
                == path_gap(robots[i], robots[j]),
    decreases n,
{
    if n > 0 {
        lemma_slide_limit_min(b, robots, i, d, n - 1);
    }
}

/// `t` is `r` with robot `k` relabelled `perm[k]`.
pub open spec fn relabelled(r: Seq<Pos>, t: Seq<Pos>, perm: Seq<usize>) -> bool {
    &&& r.len() == 4
    &&& t.len() == 4
    &&& is_perm(perm, 4)
    &&& forall|k: int| 0 <= k < 4 ==> t[#[trigger] perm[k] as int] == r[k]
}

/// A slide depends on the occupied cells, not on the robots' labels:
/// relabelling the robots by a permutation and sliding the relabelled robot
/// gives the relabelled result.
pub proof fn lemma_slide_relabel(b: &Board, r: Seq<Pos>, t: Seq<Pos>, perm: Seq<usize>, i: int, d: int)
    requires
        relabelled(r, t, perm),
        0 <= i < 4,
        0 <= d < 4,
    ensures
        slide(b, r, i, d) is None <==> slide(b, t, perm[i] as int, d) is None,
        slide(b, r, i, d) is Some ==> relabelled(slide(b, r, i, d)->0, slide(b, t, perm[i] as int, d)->0, perm),
{
    let pi = perm[i] as int;
    assert(t[pi] == r[i]);
    lemma_slide_limit_min(b, r, i, d, 4);
    lemma_slide_limit_min(b, t, pi, d, 4);
    let v = slide_dist(b, r, i, d);
    let u = slide_dist(b, t, pi, d);
    assert forall|j: int| 0 <= j < 4 && j != i && in_path(r[i], #[trigger] r[j], d) implies u <= path_gap(r[i], r[j]) by {
        assert(t[perm[j] as int] == r[j]);
        assert(perm[j] as int != pi);
    }
    assert forall|j2: int| 0 <= j2 < 4 && j2 != pi && in_path(t[pi], #[trigger] t[j2], d) implies v <= path_gap(t[pi], t[j2]) by {
        if !(exists|j: int| 0 <= j < 4 && #[trigger] perm[j] == j2) {
            assert(perm[0] != j2 && perm[1] != j2 && perm[2] != j2 && perm[3] != j2);
            assert(perm[0] != perm[1] && perm[0] != perm[2] && perm[0] != perm[3]);
            assert(perm[1] != perm[2] && perm[1] != perm[3] && perm[2] != perm[3]);
            assert(perm[0] < 4 && perm[1] < 4 && perm[2] < 4 && perm[3] < 4);
        }
        let j = choose|j: int| 0 <= j < 4 && #[trigger] perm[j] == j2;
        assert(t[j2] == r[j]);
        assert(j != i);
    }
    assert(u == v);
    if v != 0 {
        let rs = slide(b, r, i, d)->0;
        let ts = slide(b, t, pi, d)->0;
        assert forall|k: int| 0 <= k < 4 implies ts[#[trigger] perm[k] as int] == rs[k] by {
            if k != i {
                assert(perm[k] as int != pi);
            }
        }
    }
}

/// Relabelling the robots and the moves by one permutation relabels what
/// replaying the moves gives.
pub proof fn lemma_replay_relabel(b: &Board, r: Seq<Pos>, t: Seq<Pos>, perm: Seq<usize>, ms: Seq<Move>)
    requires
        relabelled(r, t, perm),
        forall|k: int| 0 <= k < ms.len() ==> (#[trigger] ms[k]).c < 4,
    ensures
        replay(b, r, ms) is None <==> replay(b, t, relabel_moves(ms, perm)) is None,
        replay(b, r, ms) is Some ==> relabelled(replay(b, r, ms)->0, replay(b, t, relabel_moves(ms, perm))->0, perm),
    decreases ms.len(),
{
    let ms2 = relabel_moves(ms, perm);
    if ms.len() > 0 {
        assert(relabel_moves(ms.drop_first(), perm) =~= ms2.drop_first());
        lemma_replay_relabel(b, r, t, perm, ms.drop_first());
        if let Some(rs) = replay(b, r, ms.drop_first()) {
            let ts = replay(b, t, ms2.drop_first())->0;
            if ms[0].d < 4 {
                lemma_slide_relabel(b, rs, ts, perm, ms[0].c as int, ms[0].d as int);
            }
        }
    }
}

/// Each move with its robot relabelled by `perm`.
pub open spec fn relabel_moves(ms: Seq<Move>, perm: Seq<usize>) -> Seq<Move> {
    ms.map_values(|m: Move| Move { c: perm[m.c as int], d: m.d })
}

/// `perm` sends each of `0..n` to a distinct one of `0..n`.
pub open spec fn is_perm(perm: Seq<usize>, n: int) -> bool {
    &&& perm.len() == n
    &&& forall|i: int| 0 <= i < n ==> #[trigger] perm[i] < n
    &&& forall|i: int, j: int| 0 <= i < n && 0 <= j < n && i != j ==> perm[i] != perm[j]
}

/// Gives robot `i` the colour `perm[i]`: the goal robot and every move are
/// relabelled, the robots are reordered so that robot `i` stands at index
/// `perm[i]`, and the moves, given newest first, come back oldest first.
/// Cells and directions are left as they are.
pub fn recolour(perm: &Vec<usize>, goal: (usize, Pos), log: &Vec<Move>, robots: &Vec<Pos>) -> (res: (
    (usize, Pos),
    Vec<Move>,
    Vec<Pos>,
))
    requires
        is_perm(perm@, robots@.len() as int),
        goal.0 < robots@.len(),
        forall|k: int| 0 <= k < log@.len() ==> (#[trigger] log@[k]).c < robots@.len(),
    ensures
        res.0 == (perm@[goal.0 as int], goal.1),
        res.1@.len() == log@.len(),
        forall|k: int|
            0 <= k < log@.len() ==> #[trigger] res.1@[k] == (Move {
                c: perm@[log@[log@.len() - 1 - k].c as int],
                d: log@[log@.len() - 1 - k].d,
            }),
        res.2@.len() == robots@.len(),
        forall|i: int| 0 <= i < robots@.len() ==> res.2@[#[trigger] perm@[i] as int] == robots@[i],
{
    let n = robots.len();
    let mut moves: Vec<Move> = Vec::new();
    let mut k: usize = log.len();
    while k > 0
        invariant
            is_perm(perm@, n as int),
            n == robots@.len(),
            forall|j: int| 0 <= j < log@.len() ==> (#[trigger] log@[j]).c < n,
            k <= log@.len(),
            moves@.len() == log@.len() - k,
            forall|j: int|
                0 <= j < moves@.len() ==> #[trigger] moves@[j] == (Move {
                    c: perm@[log@[log@.len() - 1 - j].c as int],
                    d: log@[log@.len() - 1 - j].d,
                }),
        decreases k,
    {
        k = k - 1;
        let m = log[k];
        moves.push(Move { c: perm[m.c], d: m.d });
    }
    let mut out = copy_robots(robots);
    let mut i: usize = 0;
    while i < n
        invariant
            is_perm(perm@, n as int),
            n == robots@.len(),
            out@.len() == n,
            i <= n,
            forall|j: int| 0 <= j < i ==> out@[#[trigger] perm@[j] as int] == robots@[j],
        decreases n - i,
    {
        out.set(perm[i], robots[i]);
        proof {
            assert forall|j: int| 0 <= j < i + 1 implies out@[#[trigger] perm@[j] as int] == robots@[j] by {
                if j < i {
                    assert(perm@[j] != perm@[i as int]);
                }
            }
        }
        i = i + 1;
    }
    ((perm[goal.0], goal.1), moves, out)
}

} // verus!
