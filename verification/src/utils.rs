use rand::seq::SliceRandom;
use crate::protocol::Wall;
use vstd::prelude::*;

verus! {

/// Distance between two coordinates on one axis.
pub open spec fn dist(a: int, b: int) -> int {
    if a <= b {
        b - a
    } else {
        a - b
    }
}

/// `k` unit steps from `from` in the direction of `to` (a line walk moves
/// downwards when the two coordinates are equal, but then it never moves).
pub open spec fn toward(from: int, to: int, k: int) -> int {
    if from < to {
        from + k
    } else {
        from - k
    }
}

/// The counters of the integer line walk after `n` rounds, over a box that is
/// `a` columns wide and `b` rows tall: (steps taken along x, steps taken along
/// y, error term). Each round compares twice the error term with `-b` (to step
/// along x) and with `a` (to step along y).
pub open spec fn walk(a: int, b: int, n: nat) -> (int, int, int)
    decreases n,
{
    if n == 0 {
        (0, 0, a - b)
    } else {
        let prev = walk(a, b, (n - 1) as nat);
        let e2 = 2 * prev.2;
        let xs = if e2 >= -b {
            prev.0 + 1
        } else {
            prev.0
        };
        let ys = if e2 <= a {
            prev.1 + 1
        } else {
            prev.1
        };
        let err = prev.2 + (if e2 >= -b {
            -b
        } else {
            0
        }) + (if e2 <= a {
            a
        } else {
            0
        });
        (xs, ys, err)
    }
}

/// Number of points on the traced line from `(x0, y0)` to `(x1, y1)`.
pub open spec fn line_len(x0: i32, y0: i32, x1: i32, y1: i32) -> nat {
    (vstd::math::max(dist(x0 as int, x1 as int), dist(y0 as int, y1 as int)) + 1) as nat
}

/// The `i`-th point of the traced line from `(x0, y0)` to `(x1, y1)`.
pub open spec fn line_point(x0: i32, y0: i32, x1: i32, y1: i32, i: int) -> (i32, i32) {
    let w = walk(dist(x0 as int, x1 as int), dist(y0 as int, y1 as int), i as nat);
    (toward(x0 as int, x1 as int, w.0) as i32, toward(y0 as int, y1 as int, w.1) as i32)
}

/// The whole traced line from `(x0, y0)` to `(x1, y1)`, both ends included.
pub open spec fn line(x0: i32, y0: i32, x1: i32, y1: i32) -> Seq<(i32, i32)> {
    Seq::new(line_len(x0, y0, x1, y1), |i: int| line_point(x0, y0, x1, y1, i))
}

/// What holds of the walk counters after `n` rounds.
pub open spec fn walk_inv(a: int, b: int, n: nat, w: (int, int, int)) -> bool {
    &&& 0 <= w.0 <= a
    &&& 0 <= w.1 <= b
    &&& w.2 == a * (1 + w.1) - b * (1 + w.0)
    &&& -2 * b <= w.2 <= 2 * a
    &&& a >= b ==> w.0 == n && 2 * w.2 >= -b
    &&& a < b ==> w.1 == n && 2 * w.2 <= a
}

proof fn lemma_walk_done(a: int, b: int, n: nat, w: (int, int, int))
    requires
        0 <= a,
        0 <= b,
        walk_inv(a, b, n, w),
    ensures
        (w.0 == a && w.1 == b) <==> n == vstd::math::max(a, b),
{
    if a >= b && n == a && w.1 < b {
        assert(a * (1 + w.1) <= a * b) by (nonlinear_arith)
            requires
                0 <= a,
                1 + w.1 <= b,
        ;
        assert(b * (1 + a) == b + a * b) by (nonlinear_arith);
    }
    if a < b && n == b && w.0 < a {
        assert(b * (1 + w.0) <= b * a) by (nonlinear_arith)
            requires
                0 <= b,
                1 + w.0 <= a,
        ;
        assert(a * (1 + b) == a + a * b) by (nonlinear_arith);
        assert(b * a == a * b) by (nonlinear_arith);
    }
}

/// The walk counters stay in their box, and the walk reaches the far corner of
/// the box after exactly `max(a, b)` rounds and not before.
pub proof fn lemma_walk(a: int, b: int, n: nat)
    requires
        0 <= a,
        0 <= b,
        n <= vstd::math::max(a, b),
    ensures
        walk_inv(a, b, n, walk(a, b, n)),
        (walk(a, b, n).0 == a && walk(a, b, n).1 == b) <==> n == vstd::math::max(a, b),
    decreases n,
{
    if n == 0 {
        assert(a * (1 + 0) == a) by (nonlinear_arith);
        assert(b * (1 + 0) == b) by (nonlinear_arith);
    } else {
        let m = (n - 1) as nat;
        lemma_walk(a, b, m);
        let p = walk(a, b, m);
        let w = walk(a, b, n);
        let e2 = 2 * p.2;
        assert(m != vstd::math::max(a, b));
        // a step along an axis never overshoots the box
        if e2 >= -b && p.0 == a {
            assert(a < b);
            assert(a * (1 + p.1) <= a * b) by (nonlinear_arith)
                requires
                    0 <= a,
                    1 + p.1 <= b,
            ;
            assert(b * (1 + a) == b + a * b) by (nonlinear_arith);
            assert(b * a == a * b) by (nonlinear_arith);
        }
        if e2 <= a && p.1 == b {
            assert(a >= b);
            assert(b * (1 + p.0) <= b * a) by (nonlinear_arith)
                requires
                    0 <= b,
                    1 + p.0 <= a,
            ;
            assert(a * (1 + b) == a + a * b) by (nonlinear_arith);
            assert(b * a == a * b) by (nonlinear_arith);
        }
        assert(a * (1 + (p.1 + 1)) == a * (1 + p.1) + a) by (nonlinear_arith);
        assert(b * (1 + (p.0 + 1)) == b * (1 + p.0) + b) by (nonlinear_arith);
        assert(walk_inv(a, b, n, w));
        lemma_walk_done(a, b, n, w);
    }
}

/// The points on the line of fire from `(x0, y0)` to `(x1, y1)`, by the
/// integer line-drawing walk: the first point is the start, the last point is
/// the target, and there are `max(|x1 - x0|, |y1 - y0|) + 1` points.
pub fn get_bresenham_line(x0: i32, y0: i32, x1: i32, y1: i32) -> (path: Vec<(i32, i32)>)
    ensures
        path@ == line(x0, y0, x1, y1),
{
    let ghost a_s = dist(x0 as int, x1 as int);
    let ghost b_s = dist(y0 as int, y1 as int);
    let ghost m = vstd::math::max(a_s, b_s);
    let a: i64 = if x0 <= x1 {
        x1 as i64 - x0 as i64
    } else {
        x0 as i64 - x1 as i64
    };
    let b: i64 = if y0 <= y1 {
        y1 as i64 - y0 as i64
    } else {
        y0 as i64 - y1 as i64
    };
    let mut path: Vec<(i32, i32)> = Vec::new();
    let mut x: i32 = x0;
    let mut y: i32 = y0;
    let mut err: i64 = a - b;
    let ghost mut n: nat = 0;
    proof {
        lemma_walk(a_s, b_s, 0);
    }
    loop
        invariant_except_break
            path@ =~= Seq::new(n, |i: int| line_point(x0, y0, x1, y1, i)),
        invariant
            a == a_s,
            b == b_s,
            a_s == dist(x0 as int, x1 as int),
            b_s == dist(y0 as int, y1 as int),
            m == vstd::math::max(a_s, b_s),
            0 <= a <= 0x1_0000_0000,
            0 <= b <= 0x1_0000_0000,
            n <= m,
            walk_inv(a_s, b_s, n, walk(a_s, b_s, n)),
            (walk(a_s, b_s, n).0 == a_s && walk(a_s, b_s, n).1 == b_s) <==> n == m,
            x == toward(x0 as int, x1 as int, walk(a_s, b_s, n).0),
            y == toward(y0 as int, y1 as int, walk(a_s, b_s, n).1),
            err == walk(a_s, b_s, n).2,
        ensures
            path@ =~= line(x0, y0, x1, y1),
        decreases m - n,
    {
        proof {
            let w = walk(a_s, b_s, n);
            assert(toward(x0 as int, x1 as int, w.0) == x as int);
            assert(toward(y0 as int, y1 as int, w.1) == y as int);
            assert(line_point(x0, y0, x1, y1, n as int) == (x, y));
        }
        path.push((x, y));
        if x == x1 && y == y1 {
            break;
        }
        proof {
            lemma_walk(a_s, b_s, n + 1);
        }
        let e2 = 2 * err;
        if e2 >= -b {
            err = err - b;
            x = if x0 < x1 {
                x + 1
            } else {
                x - 1
            };
        }
        if e2 <= a {
            err = err + a;
            y = if y0 < y1 {
                y + 1
            } else {
                y - 1
            };
        }
        proof {
            n = n + 1;
        }
    }
    path
}

/// The traced line starts at `(x0, y0)` and ends at `(x1, y1)`.
pub proof fn lemma_line_ends(x0: i32, y0: i32, x1: i32, y1: i32)
    ensures
        line(x0, y0, x1, y1).len() >= 1,
        line(x0, y0, x1, y1)[0] == (x0, y0),
        line(x0, y0, x1, y1)[line(x0, y0, x1, y1).len() - 1] == (x1, y1),
{
    let a = dist(x0 as int, x1 as int);
    let b = dist(y0 as int, y1 as int);
    let m = vstd::math::max(a, b);
    lemma_walk(a, b, m as nat);
    assert(line(x0, y0, x1, y1)[m] == line_point(x0, y0, x1, y1, m));
}

/// Two consecutive points of the traced line are different and touch each
/// other (side or corner): the line has no gaps and no repeats.
pub proof fn lemma_line_connected(x0: i32, y0: i32, x1: i32, y1: i32, i: int)
    requires
        0 <= i < line(x0, y0, x1, y1).len() - 1,
    ensures
        ({
            let p = line(x0, y0, x1, y1)[i];
            let q = line(x0, y0, x1, y1)[i + 1];
            &&& dist(p.0 as int, q.0 as int) <= 1
            &&& dist(p.1 as int, q.1 as int) <= 1
            &&& p != q
        }),
{
    let a = dist(x0 as int, x1 as int);
    let b = dist(y0 as int, y1 as int);
    lemma_walk(a, b, i as nat);
    lemma_walk(a, b, (i + 1) as nat);
    assert(line(x0, y0, x1, y1)[i] == line_point(x0, y0, x1, y1, i));
    assert(line(x0, y0, x1, y1)[i + 1] == line_point(x0, y0, x1, y1, i + 1));
    assert(((i + 1) as nat - 1) as nat == i as nat);
}

/// The target `(x1, y1)` is on the traced line only as its last point.
pub proof fn lemma_line_target_last(x0: i32, y0: i32, x1: i32, y1: i32, i: int)
    requires
        0 <= i < line(x0, y0, x1, y1).len() - 1,
    ensures
        line(x0, y0, x1, y1)[i] != (x1, y1),
{
    let a = dist(x0 as int, x1 as int);
    let b = dist(y0 as int, y1 as int);
    lemma_walk(a, b, i as nat);
    assert(line(x0, y0, x1, y1)[i] == line_point(x0, y0, x1, y1, i));
}

/// The error term of the line walk keeps the walk within half a cell of
/// the true segment on the axis along which it moves less.
proof fn lemma_walk_err(a: int, b: int, n: nat)
    requires
        0 <= a,
        0 <= b,
    ensures
        a >= b ==> a - 2 * b <= 2 * walk(a, b, n).2 <= 3 * a - 2 * b,
        a < b ==> 2 * a - 3 * b <= 2 * walk(a, b, n).2 <= 2 * a - b,
    decreases n,
{
    if n > 0 {
        lemma_walk_err(a, b, (n - 1) as nat);
    }
}

/// Law of the traced line: every point lies within half a cell of the true
/// segment from `(x0, y0)` to `(x1, y1)`, measured along the axis on which
/// the segment is shorter. With `a`, `b` the segment's extents on the x and
/// y axes and `(xs, ys)` a point's distances from the start, when `a >= b`
/// the point's row is a nearest one to the segment at its column
/// (`|ys - xs * b / a| <= 1/2`), and otherwise its column is a nearest one to
/// the segment at its row.
pub proof fn lemma_line_close(x0: i32, y0: i32, x1: i32, y1: i32, i: int)
    requires
        0 <= i < line(x0, y0, x1, y1).len(),
    ensures
        ({
            let p = line(x0, y0, x1, y1)[i];
            let a = dist(x0 as int, x1 as int);
            let b = dist(y0 as int, y1 as int);
            let xs = dist(x0 as int, p.0 as int);
            let ys = dist(y0 as int, p.1 as int);
            &&& a >= b ==> -a <= 2 * (a * ys - b * xs) <= a
            &&& a < b ==> -b <= 2 * (b * xs - a * ys) <= b
        }),
{
    let a = dist(x0 as int, x1 as int);
    let b = dist(y0 as int, y1 as int);
    lemma_walk(a, b, i as nat);
    lemma_walk_err(a, b, i as nat);
    let w = walk(a, b, i as nat);
    assert(line(x0, y0, x1, y1)[i] == line_point(x0, y0, x1, y1, i));
    let p = line(x0, y0, x1, y1)[i];
    let tx = toward(x0 as int, x1 as int, w.0);
    let ty = toward(y0 as int, y1 as int, w.1);
    assert(p.0 as int == tx);
    assert(p.1 as int == ty);
    assert(dist(x0 as int, tx) == w.0);
    assert(dist(y0 as int, ty) == w.1);
    let e = w.2;
    assert(e == a * (1 + w.1) - b * (1 + w.0));
    assert(a * (1 + w.1) - b * (1 + w.0) == (a * w.1 - b * w.0) + a - b) by (nonlinear_arith);
}

/// The cells of a grid, indexed `[x][y]`, as a sequence of columns.
pub open spec fn cells(grid: &Vec<Vec<i32>>) -> Seq<Seq<i32>> {
    grid@.map_values(|col: Vec<i32>| col@)
}

/// Width of a grid: the number of columns.
pub open spec fn grid_width(g: Seq<Seq<i32>>) -> int {
    g.len() as int
}

/// Height of a grid: the length of its first column (0 for an empty grid).
pub open spec fn grid_height(g: Seq<Seq<i32>>) -> int {
    if g.len() > 0 {
        g[0].len() as int
    } else {
        0
    }
}

/// A grid whose sizes fit in `i32` and whose columns are all at least as
/// long as the first one, so that every cell inside its width and height
/// exists.
pub open spec fn grid_ok(g: Seq<Seq<i32>>) -> bool {
    &&& g.len() <= i32::MAX
    &&& grid_height(g) <= i32::MAX
    &&& forall|i: int| 0 <= i < g.len() ==> #[trigger] g[i].len() >= grid_height(g)
}

/// The cell `(x, y)` lies inside the grid.
pub open spec fn inside(g: Seq<Seq<i32>>, x: int, y: int) -> bool {
    0 <= x < grid_width(g) && 0 <= y < grid_height(g)
}

/// The cell `(x, y)` is a wall (value 1) inside the grid.
pub open spec fn blocks(g: Seq<Seq<i32>>, x: int, y: int) -> bool {
    inside(g, x, y) && g[x][y] == 1
}

/// No cell of the traced line from `(x0, y0)` to `(x1, y1)` is a wall of the
/// grid; cells of the line outside the grid do not stop it.
pub open spec fn clear_line(g: Seq<Seq<i32>>, x0: i32, y0: i32, x1: i32, y1: i32) -> bool {
    forall|i: int|
        0 <= i < line_len(x0, y0, x1, y1) ==> !blocks(
            g,
            #[trigger] line_point(x0, y0, x1, y1, i).0 as int,
            line_point(x0, y0, x1, y1, i).1 as int,
        )
}

/// The cell `(x, y)` lies inside the grid and is not a wall.
pub open spec fn free_cell(g: Seq<Seq<i32>>, x: int, y: int) -> bool {
    inside(g, x, y) && g[x][y] != 1
}

/// The cell at offset `(dx, dy)` from `(cx, cy)` is free.
pub open spec fn free_at(g: Seq<Seq<i32>>, cx: int, cy: int, dx: int, dy: int) -> bool {
    free_cell(g, cx + dx, cy + dy)
}

/// A hero, who takes up the 3x3 block centred on `(cx, cy)`, fits there: all
/// nine cells are inside the grid and none is a wall.
pub open spec fn standable(g: Seq<Seq<i32>>, cx: int, cy: int) -> bool {
    forall|dx: int, dy: int| -1 <= dx <= 1 && -1 <= dy <= 1 ==> #[trigger] free_at(g, cx, cy, dx, dy)
}

/// The eight moves of a hero, three cells at a time, in the order in which
/// they are tried.
pub open spec fn step_dir(k: int) -> (int, int) {
    if k == 0 {
        (0, 3)
    } else if k == 1 {
        (0, -3)
    } else if k == 2 {
        (3, 0)
    } else if k == 3 {
        (-3, 0)
    } else if k == 4 {
        (3, 3)
    } else if k == 5 {
        (3, -3)
    } else if k == 6 {
        (-3, 3)
    } else {
        (-3, -3)
    }
}

/// The destinations among the first `k` moves from `(cx, cy)` where a hero
/// can stand, in the order of the moves.
pub open spec fn move_targets_upto(g: Seq<Seq<i32>>, cx: int, cy: int, k: nat) -> Seq<(i32, i32)>
    decreases k,
{
    if k == 0 {
        Seq::empty()
    } else {
        let prev = move_targets_upto(g, cx, cy, (k - 1) as nat);
        let d = step_dir(k - 1);
        if standable(g, cx + d.0, cy + d.1) {
            prev.push(((cx + d.0) as i32, (cy + d.1) as i32))
        } else {
            prev
        }
    }
}

/// The destinations of all eight moves from `(cx, cy)` where a hero can stand.
pub open spec fn move_targets(g: Seq<Seq<i32>>, cx: int, cy: int) -> Seq<(i32, i32)> {
    move_targets_upto(g, cx, cy, 8)
}

/// Whether a shot from `(x0, y0)` can reach `(x1, y1)`: no cell of the traced
/// line between them (both ends included) is a wall inside the grid.
pub fn has_line_of_sight(grid: &Vec<Vec<i32>>, x0: i32, y0: i32, x1: i32, y1: i32) -> (r: bool)
    requires
        grid_ok(cells(grid)),
    ensures
        r == clear_line(cells(grid), x0, y0, x1, y1),
{
    let ghost g = cells(grid);
    let ghost a_s = dist(x0 as int, x1 as int);
    let ghost b_s = dist(y0 as int, y1 as int);
    let ghost m = vstd::math::max(a_s, b_s);
    let a: i64 = if x0 <= x1 {
        x1 as i64 - x0 as i64
    } else {
        x0 as i64 - x1 as i64
    };
    let b: i64 = if y0 <= y1 {
        y1 as i64 - y0 as i64
    } else {
        y0 as i64 - y1 as i64
    };
    let mut x: i32 = x0;
    let mut y: i32 = y0;
    let mut err: i64 = a - b;
    let width = grid.len() as i32;
    let height = if width > 0 {
        grid[0].len() as i32
    } else {
        0
    };
    let ghost mut n: nat = 0;
    proof {
        lemma_walk(a_s, b_s, 0);
    }
    loop
        invariant
            g == cells(grid),
            grid_ok(g),
            width == grid_width(g),
            height == grid_height(g),
            a == a_s,
            b == b_s,
            a_s == dist(x0 as int, x1 as int),
            b_s == dist(y0 as int, y1 as int),
            m == vstd::math::max(a_s, b_s),
            0 <= a <= 0x1_0000_0000,
            0 <= b <= 0x1_0000_0000,
            n <= m,
            walk_inv(a_s, b_s, n, walk(a_s, b_s, n)),
            (walk(a_s, b_s, n).0 == a_s && walk(a_s, b_s, n).1 == b_s) <==> n == m,
            x == toward(x0 as int, x1 as int, walk(a_s, b_s, n).0),
            y == toward(y0 as int, y1 as int, walk(a_s, b_s, n).1),
            err == walk(a_s, b_s, n).2,
            forall|i: int|
                0 <= i < n ==> !blocks(
                    g,
                    #[trigger] line_point(x0, y0, x1, y1, i).0 as int,
                    line_point(x0, y0, x1, y1, i).1 as int,
                ),
        decreases m - n,
    {
        assert(line_point(x0, y0, x1, y1, n as int) == (x, y));
        if x >= 0 && x < width && y >= 0 && y < height {
            assert(g[x as int] == grid@[x as int]@);
            assert(g[x as int].len() >= grid_height(g));
            if grid[x as usize][y as usize] == 1 {
                assert(blocks(g, x as int, y as int));
                assert(!clear_line(g, x0, y0, x1, y1)) by {
                    assert(blocks(
                        g,
                        line_point(x0, y0, x1, y1, n as int).0 as int,
                        line_point(x0, y0, x1, y1, n as int).1 as int,
                    ));
                }
                return false;
            }
        }
        if x == x1 && y == y1 {
            return true;
        }
        proof {
            lemma_walk(a_s, b_s, n + 1);
        }
        let e2 = 2 * err;
        if e2 >= -b {
            err = err - b;
            x = if x0 < x1 {
                x + 1
            } else {
                x - 1
            };
        }
        if e2 <= a {
            err = err + a;
            y = if y0 < y1 {
                y + 1
            } else {
                y - 1
            };
        }
        proof {
            n = n + 1;
        }
    }
}

/// Whether the cell `(x, y)` is inside the grid and not a wall.
fn cell_is_free(grid: &Vec<Vec<i32>>, x: i64, y: i64) -> (r: bool)
    requires
        grid_ok(cells(grid)),
    ensures
        r == free_cell(cells(grid), x as int, y as int),
{
    let width = grid.len() as i64;
    let height: i64 = if grid.len() > 0 {
        grid[0].len() as i64
    } else {
        0
    };
    if x < 0 || x >= width || y < 0 || y >= height {
        return false;
    }
    assert(cells(grid)[x as int] == grid@[x as int]@);
    assert(cells(grid)[x as int].len() >= grid_height(cells(grid)));
    grid[x as usize][y as usize] != 1
}

/// Whether a hero fits with its 3x3 block centred on `(cx, cy)`.
fn stands_at(grid: &Vec<Vec<i32>>, cx: i64, cy: i64) -> (r: bool)
    requires
        grid_ok(cells(grid)),
        -0x1_0000_0000 <= cx <= 0x1_0000_0000,
        -0x1_0000_0000 <= cy <= 0x1_0000_0000,
    ensures
        r == standable(cells(grid), cx as int, cy as int),
{
    let ghost g = cells(grid);
    let mut dx: i64 = -1;
    while dx <= 1
        invariant
            g == cells(grid),
            grid_ok(g),
            -0x1_0000_0000 <= cx <= 0x1_0000_0000,
            -0x1_0000_0000 <= cy <= 0x1_0000_0000,
            -1 <= dx <= 2,
            forall|i: int, j: int|
                -1 <= i < dx && -1 <= j <= 1 ==> #[trigger] free_at(g, cx as int, cy as int, i, j),
        decreases 2 - dx,
    {
        let mut dy: i64 = -1;
        while dy <= 1
            invariant
                g == cells(grid),
                grid_ok(g),
                -0x1_0000_0000 <= cx <= 0x1_0000_0000,
                -0x1_0000_0000 <= cy <= 0x1_0000_0000,
                -1 <= dx <= 1,
                -1 <= dy <= 2,
                forall|i: int, j: int|
                    -1 <= i < dx && -1 <= j <= 1 ==> #[trigger] free_at(g, cx as int, cy as int, i, j),
                forall|j: int| -1 <= j < dy ==> #[trigger] free_at(g, cx as int, cy as int, dx as int, j),
            decreases 2 - dy,
        {
            if !cell_is_free(grid, cx + dx, cy + dy) {
                assert(!free_at(g, cx as int, cy as int, dx as int, dy as int));
                return false;
            }
            dy = dy + 1;
        }
        dx = dx + 1;
    }
    true
}

/// Whether a hero, who takes up the 3x3 block centred on `(cx, cy)`, can stand
/// there: all nine cells lie inside the grid and none of them is a wall.
pub fn can_stand_at(grid: &Vec<Vec<i32>>, cx: i32, cy: i32) -> (r: bool)
    requires
        grid_ok(cells(grid)),
    ensures
        r == standable(cells(grid), cx as int, cy as int),
{
    stands_at(grid, cx as i64, cy as i64)
}

/// A standable centre lies inside the grid, so its coordinates fit in `i32`.
proof fn lemma_standable_inside(g: Seq<Seq<i32>>, cx: int, cy: int)
    requires
        grid_ok(g),
        standable(g, cx, cy),
    ensures
        inside(g, cx, cy),
        0 <= cx <= i32::MAX,
        0 <= cy <= i32::MAX,
{
    assert(free_at(g, cx, cy, 0, 0));
}

/// The move offset number `k` (of eight).
fn step_dir_at(k: usize) -> (d: (i64, i64))
    requires
        k < 8,
    ensures
        d.0 == step_dir(k as int).0,
        d.1 == step_dir(k as int).1,
{
    if k == 0 {
        (0, 3)
    } else if k == 1 {
        (0, -3)
    } else if k == 2 {
        (3, 0)
    } else if k == 3 {
        (-3, 0)
    } else if k == 4 {
        (3, 3)
    } else if k == 5 {
        (3, -3)
    } else if k == 6 {
        (-3, 3)
    } else {
        (-3, -3)
    }
}

/// The destinations of the eight three-cell moves from `(cx, cy)` where a hero
/// can stand, in the order in which the moves are tried.
pub(crate) fn valid_moves(grid: &Vec<Vec<i32>>, cx: i32, cy: i32) -> (r: Vec<(i32, i32)>)
    requires
        grid_ok(cells(grid)),
    ensures
        r@ == move_targets(cells(grid), cx as int, cy as int),
{
    let ghost g = cells(grid);
    let mut moves: Vec<(i32, i32)> = Vec::new();
    let mut k: usize = 0;
    while k < 8
        invariant
            g == cells(grid),
            grid_ok(g),
            k <= 8,
            moves@ == move_targets_upto(g, cx as int, cy as int, k as nat),
        decreases 8 - k,
    {
        let d = step_dir_at(k);
        let nx = cx as i64 + d.0;
        let ny = cy as i64 + d.1;
        if stands_at(grid, nx, ny) {
            proof {
                lemma_standable_inside(g, nx as int, ny as int);
            }
            moves.push((nx as i32, ny as i32));
        }
        k = k + 1;
    }
    moves
}

/// The thread-local random generator of `rand`.
#[verifier::external_type_specification]
#[verifier::external_body]
pub struct ExThreadRng(rand::rngs::ThreadRng);

/// Calls `rand::thread_rng`, which hands out the thread-local random
/// generator; nothing is claimed of it.
#[verifier::external_body]
fn thread_rng() -> rand::rngs::ThreadRng {
    rand::thread_rng()
}

/// Calls `rand::seq::SliceRandom::choose` on the moves with the given
/// generator. The contract claims what that function documents and its
/// source shows: `None` exactly for an empty slice, otherwise one of its
/// elements (which one is left to chance and is not stated).
#[verifier::external_body]
fn choose_move(moves: &Vec<(i32, i32)>, rng: &mut rand::rngs::ThreadRng) -> (r: Option<(i32, i32)>)
    ensures
        r is None <==> moves@.len() == 0,
        r matches Some(p) ==> moves@.contains(p),
{
    moves.choose(rng).copied()
}

/// A random destination among the three-cell moves from `(cx, cy)` where a
/// hero can stand; `(cx, cy)` itself when there is none.
pub fn get_random_valid_move(grid: &Vec<Vec<i32>>, cx: i32, cy: i32) -> (r: (i32, i32))
    requires
        grid_ok(cells(grid)),
    ensures
        move_targets(cells(grid), cx as int, cy as int).len() == 0 ==> r == (cx, cy),
        move_targets(cells(grid), cx as int, cy as int).len() > 0 ==> move_targets(
            cells(grid),
            cx as int,
            cy as int,
        ).contains(r),
{
    let moves = valid_moves(grid, cx, cy);
    if moves.len() == 0 {
        (cx, cy)
    } else {
        let mut rng = thread_rng();
        match choose_move(&moves, &mut rng) {
            Some(p) => p,
            None => (cx, cy),
        }
    }
}

/// Line of sight and the line of fire agree: a shot from `(x0, y0)` reaches
/// `(x1, y1)` exactly when no point of the traced line between them (both
/// ends included) is a cell inside the grid holding 1; points of the line
/// outside the grid do not stop it.
pub proof fn lemma_sight_along_line(g: Seq<Seq<i32>>, x0: i32, y0: i32, x1: i32, y1: i32)
    ensures
        clear_line(g, x0, y0, x1, y1) <==> forall|i: int|
            0 <= i < line(x0, y0, x1, y1).len() ==> !({
                let q = #[trigger] line(x0, y0, x1, y1)[i];
                &&& 0 <= q.0 < g.len()
                &&& 0 <= q.1 < (if g.len() > 0 {
                    g[0].len() as int
                } else {
                    0
                })
                &&& g[q.0 as int][q.1 as int] == 1
            }),
{
    if clear_line(g, x0, y0, x1, y1) {
        assert forall|i: int| 0 <= i < line(x0, y0, x1, y1).len() implies !({
            let q = #[trigger] line(x0, y0, x1, y1)[i];
            &&& 0 <= q.0 < g.len()
            &&& 0 <= q.1 < (if g.len() > 0 {
                g[0].len() as int
            } else {
                0
            })
            &&& g[q.0 as int][q.1 as int] == 1
        }) by {
            assert(line(x0, y0, x1, y1)[i] == line_point(x0, y0, x1, y1, i));
            let q = line_point(x0, y0, x1, y1, i);
            assert(!blocks(g, q.0 as int, q.1 as int));
        }
    } else {
        let i = choose|i: int|
            0 <= i < line_len(x0, y0, x1, y1) && blocks(
                g,
                #[trigger] line_point(x0, y0, x1, y1, i).0 as int,
                line_point(x0, y0, x1, y1, i).1 as int,
            );
        assert(line(x0, y0, x1, y1)[i] == line_point(x0, y0, x1, y1, i));
    }
}

/// The cell `(x, y)` is one of the nine of the 3x3 block centred on
/// `(cx, cy)`.
pub open spec fn in_square(cx: int, cy: int, x: int, y: int) -> bool {
    cx - 1 <= x <= cx + 1 && cy - 1 <= y <= cy + 1
}

/// Law of where a hero can stand: at centre `(cx, cy)` exactly when each of
/// the nine cells of the 3x3 block centred there lies inside the grid (its
/// width the number of columns, its height the length of the first column)
/// and does not hold 1.
pub proof fn lemma_standable_cells(g: Seq<Seq<i32>>, cx: int, cy: int)
    ensures
        standable(g, cx, cy) <==> forall|x: int, y: int|
            #[trigger] in_square(cx, cy, x, y) ==> 0 <= x < g.len() && 0 <= y < (if g.len() > 0 {
                g[0].len() as int
            } else {
                0
            }) && g[x][y] != 1,
{
    if standable(g, cx, cy) {
        assert forall|x: int, y: int| #[trigger] in_square(cx, cy, x, y) implies 0 <= x < g.len() && 0 <= y < (
        if g.len() > 0 {
            g[0].len() as int
        } else {
            0
        }) && g[x][y] != 1 by {
            assert(free_at(g, cx, cy, x - cx, y - cy));
        }
    } else {
        let (dx, dy) = choose|dx: int, dy: int|
            !(-1 <= dx <= 1 && -1 <= dy <= 1 ==> #[trigger] free_at(g, cx, cy, dx, dy));
        let x = cx + dx;
        let y = cy + dy;
        assert(in_square(cx, cy, x, y));
        assert(!(0 <= x < g.len() && 0 <= y < (if g.len() > 0 {
            g[0].len() as int
        } else {
            0
        }) && g[x][y] != 1));
    }
}

/// A place where a hero can stand is itself a free cell inside the grid.
pub proof fn lemma_standable_free(g: Seq<Seq<i32>>, cx: int, cy: int)
    requires
        standable(g, cx, cy),
    ensures
        free_cell(g, cx, cy),
{
    assert(free_at(g, cx, cy, 0, 0));
}

/// Every destination offered for a hero at `(cx, cy)` is three cells away on
/// at least one axis (at most three on each) and is a place where it can
/// stand.
pub proof fn lemma_move_targets_valid(g: Seq<Seq<i32>>, cx: int, cy: int, k: nat, i: int)
    requires
        grid_ok(g),
        k <= 8,
        0 <= i < move_targets_upto(g, cx, cy, k).len(),
    ensures
        ({
            let t = move_targets_upto(g, cx, cy, k)[i];
            &&& standable(g, t.0 as int, t.1 as int)
            &&& dist(t.0 as int, cx) <= 3
            &&& dist(t.1 as int, cy) <= 3
            &&& (dist(t.0 as int, cx) == 3 || dist(t.1 as int, cy) == 3)
        }),
    decreases k,
{
    if k > 0 {
        let prev = move_targets_upto(g, cx, cy, (k - 1) as nat);
        let d = step_dir(k - 1);
        if i < prev.len() {
            lemma_move_targets_valid(g, cx, cy, (k - 1) as nat, i);
        } else {
            assert(standable(g, cx + d.0, cy + d.1));
            lemma_standable_inside(g, cx + d.0, cy + d.1);
        }
    }
}

/// Every one of the first `k` moves from `(cx, cy)` that ends where a hero
/// can stand is offered.
proof fn lemma_move_targets_upto_complete(g: Seq<Seq<i32>>, cx: int, cy: int, k: nat, d: int)
    requires
        0 <= d < k,
        standable(g, cx + step_dir(d).0, cy + step_dir(d).1),
    ensures
        move_targets_upto(g, cx, cy, k).contains(
            ((cx + step_dir(d).0) as i32, (cy + step_dir(d).1) as i32),
        ),
    decreases k,
{
    let prev = move_targets_upto(g, cx, cy, (k - 1) as nat);
    let p = ((cx + step_dir(d).0) as i32, (cy + step_dir(d).1) as i32);
    if d < k - 1 {
        lemma_move_targets_upto_complete(g, cx, cy, (k - 1) as nat, d);
        let i = choose|i: int| 0 <= i < prev.len() && prev[i] == p;
        assert(move_targets_upto(g, cx, cy, k)[i] == p);
    } else {
        assert(move_targets_upto(g, cx, cy, k) == prev.push(p));
        assert(move_targets_upto(g, cx, cy, k)[prev.len() as int] == p);
    }
}

/// Two different moves offered from `(cx, cy)` lead to different places.
pub proof fn lemma_move_targets_distinct(g: Seq<Seq<i32>>, cx: int, cy: int, k: nat, i: int, j: int)
    requires
        grid_ok(g),
        k <= 8,
        0 <= i < j < move_targets_upto(g, cx, cy, k).len(),
    ensures
        move_targets_upto(g, cx, cy, k)[i] != move_targets_upto(g, cx, cy, k)[j],
    decreases k,
{
    let prev = move_targets_upto(g, cx, cy, (k - 1) as nat);
    let d = step_dir(k - 1);
    let all = move_targets_upto(g, cx, cy, k);
    if j < prev.len() {
        assert(all[i] == prev[i] && all[j] == prev[j]);
        lemma_move_targets_distinct(g, cx, cy, (k - 1) as nat, i, j);
    } else {
        lemma_move_targets_dirs(g, cx, cy, (k - 1) as nat, i);
        let e = choose|e: int| 0 <= e < k - 1 && #[trigger] step_dir(e) == (prev[i].0 - cx, prev[i].1 - cy);
        assert(all[i] == prev[i]);
        lemma_standable_inside(g, cx + d.0, cy + d.1);
        assert(all[j] == ((cx + d.0) as i32, (cy + d.1) as i32));
        assert(step_dir(e) != step_dir(k - 1));
    }
}

/// Each move offered among the first `k` goes in one of the first `k`
/// directions.
proof fn lemma_move_targets_dirs(g: Seq<Seq<i32>>, cx: int, cy: int, k: nat, i: int)
    requires
        grid_ok(g),
        k <= 8,
        0 <= i < move_targets_upto(g, cx, cy, k).len(),
    ensures
        exists|e: int|
            0 <= e < k && #[trigger] step_dir(e) == (move_targets_upto(g, cx, cy, k)[i].0 - cx,
                move_targets_upto(g, cx, cy, k)[i].1 - cy),
    decreases k,
{
    let prev = move_targets_upto(g, cx, cy, (k - 1) as nat);
    let d = step_dir(k - 1);
    let all = move_targets_upto(g, cx, cy, k);
    if i < prev.len() {
        lemma_move_targets_dirs(g, cx, cy, (k - 1) as nat, i);
        let e = choose|e: int| 0 <= e < k - 1 && #[trigger] step_dir(e) == (prev[i].0 - cx, prev[i].1 - cy);
        assert(all[i] == prev[i]);
        assert(step_dir(e) == (all[i].0 - cx, all[i].1 - cy));
    } else {
        lemma_standable_inside(g, cx + d.0, cy + d.1);
        assert(all[i] == ((cx + d.0) as i32, (cy + d.1) as i32));
        assert(step_dir(k - 1) == (all[i].0 - cx, all[i].1 - cy));
    }
}

/// Every place three cells away from `(cx, cy)` on one or both axes (and
/// level with it on the other axis, if only one) where a hero can stand is
/// among the offered destinations.
pub proof fn lemma_move_targets_complete(g: Seq<Seq<i32>>, cx: int, cy: int, tx: int, ty: int)
    requires
        dist(tx, cx) == 0 || dist(tx, cx) == 3,
        dist(ty, cy) == 0 || dist(ty, cy) == 3,
        tx != cx || ty != cy,
        standable(g, tx, ty),
    ensures
        move_targets(g, cx, cy).contains((tx as i32, ty as i32)),
{
    let dx = tx - cx;
    let dy = ty - cy;
    let d: int = if dx == 0 && dy == 3 {
        0
    } else if dx == 0 && dy == -3 {
        1
    } else if dx == 3 && dy == 0 {
        2
    } else if dx == -3 && dy == 0 {
        3
    } else if dx == 3 && dy == 3 {
        4
    } else if dx == 3 && dy == -3 {
        5
    } else if dx == -3 && dy == 3 {
        6
    } else {
        7
    };
    assert(step_dir(d) == (dx, dy));
    lemma_move_targets_upto_complete(g, cx, cy, 8, d);
}

/// The cell `(x, y)` lies in the 3x3 block centred on the wall.
pub open spec fn in_block(w: Wall, x: int, y: int) -> bool {
    dist(w.x as int, x) <= 1 && dist(w.y as int, y) <= 1
}

/// The cell `(x, y)` lies in the block of one of the walls.
pub open spec fn walled(walls: Seq<Wall>, x: int, y: int) -> bool {
    exists|k: int| 0 <= k < walls.len() && #[trigger] in_block(walls[k], x, y)
}

/// The collision grid of a `width` x `height` field: 1 on every cell of a
/// wall's 3x3 block, 0 elsewhere.
pub open spec fn wall_cells(walls: Seq<Wall>, width: int, height: int) -> Seq<Seq<i32>> {
    Seq::new(
        width as nat,
        |x: int|
            Seq::new(
                height as nat,
                |y: int|
                    if walled(walls, x, y) {
                        1i32
                    } else {
                        0i32
                    },
            ),
    )
}

/// The part of a wall's block marked so far, going through its offsets
/// `(dx, dy)` column by column.
pub open spec fn block_part(w: Wall, x: int, y: int, dx: int, dy: int) -> bool {
    in_block(w, x, y) && (x - w.x < dx || (x - w.x == dx && y - w.y < dy))
}

/// The grid while the walls are being marked.
pub open spec fn marking(
    walls: Seq<Wall>,
    k: int,
    dx: int,
    dy: int,
    width: int,
    height: int,
) -> Seq<Seq<i32>> {
    Seq::new(
        width as nat,
        |x: int|
            Seq::new(
                height as nat,
                |y: int|
                    if walled(walls.take(k), x, y) || block_part(walls[k], x, y, dx, dy) {
                        1i32
                    } else {
                        0i32
                    },
            ),
    )
}

/// Walls one more: a cell lies in the block of one of the first `k + 1`
/// walls exactly when it lies in that of one of the first `k`, or of wall `k`.
proof fn lemma_walled_take(walls: Seq<Wall>, k: int, x: int, y: int)
    requires
        0 <= k < walls.len(),
    ensures
        walled(walls.take(k + 1), x, y) <==> walled(walls.take(k), x, y) || in_block(walls[k], x, y),
{
    if walled(walls.take(k + 1), x, y) {
        let j = choose|j: int| 0 <= j < k + 1 && #[trigger] in_block(walls.take(k + 1)[j], x, y);
        if j < k {
            assert(in_block(walls.take(k)[j], x, y));
        }
    }
    if walled(walls.take(k), x, y) {
        let j = choose|j: int| 0 <= j < k && #[trigger] in_block(walls.take(k)[j], x, y);
        assert(in_block(walls.take(k + 1)[j], x, y));
    }
    if in_block(walls[k], x, y) {
        assert(in_block(walls.take(k + 1)[k], x, y));
    }
}

/// The collision grid of a `width` x `height` field with the given walls:
/// every cell of the 3x3 block centred on a wall that lies on the field is 1,
/// every other cell 0.
pub fn wall_grid(walls: &Vec<Wall>, width: i32, height: i32) -> (grid: Vec<Vec<i32>>)
    requires
        width >= 0,
        height >= 0,
    ensures
        cells(&grid) == wall_cells(walls@, width as int, height as int),
        grid_ok(cells(&grid)),
{
    let mut grid: Vec<Vec<i32>> = Vec::new();
    let mut x: i32 = 0;
    while x < width
        invariant
            0 <= x <= width,
            height >= 0,
            grid@.len() == x,
            forall|i: int| 0 <= i < x ==> #[trigger] grid@[i]@ == Seq::new(height as nat, |y: int| 0i32),
        decreases width - x,
    {
        let mut col: Vec<i32> = Vec::new();
        let mut y: i32 = 0;
        while y < height
            invariant
                0 <= y <= height,
                col@ =~= Seq::new(y as nat, |j: int| 0i32),
            decreases height - y,
        {
            col.push(0);
            y = y + 1;
        }
        grid.push(col);
        x = x + 1;
    }
    assert(cells(&grid) =~~= marking(walls@, 0, -1, -1, width as int, height as int)) by {
        assert forall|i: int| 0 <= i < width implies #[trigger] cells(&grid)[i] =~= marking(
            walls@,
            0,
            -1,
            -1,
            width as int,
            height as int,
        )[i] by {
            assert(grid@[i]@ == Seq::new(height as nat, |y: int| 0i32));
        }
    }
    let mut k: usize = 0;
    while k < walls.len()
        invariant
            width >= 0,
            height >= 0,
            k <= walls.len(),
            grid@.len() == width,
            cells(&grid) == marking(walls@, k as int, -1, -1, width as int, height as int),
        decreases walls.len() - k,
    {
        let wx = walls[k].x as i64;
        let wy = walls[k].y as i64;
        let mut dx: i64 = -1;
        while dx <= 1
            invariant
                width >= 0,
                height >= 0,
                k < walls.len(),
                wx == walls@[k as int].x,
                wy == walls@[k as int].y,
                -1 <= dx <= 2,
                grid@.len() == width,
                cells(&grid) == marking(walls@, k as int, dx as int, -1, width as int, height as int),
            decreases 2 - dx,
        {
            let mut dy: i64 = -1;
            while dy <= 1
                invariant
                    width >= 0,
                    height >= 0,
                    k < walls.len(),
                    wx == walls@[k as int].x,
                    wy == walls@[k as int].y,
                    -1 <= dx <= 1,
                    -1 <= dy <= 2,
                    grid@.len() == width,
                    cells(&grid) == marking(walls@, k as int, dx as int, dy as int, width as int, height as int),
                decreases 2 - dy,
            {
                let cx = wx + dx;
                let cy = wy + dy;
                let ghost before = cells(&grid);
                if cx >= 0 && cx < width as i64 && cy >= 0 && cy < height as i64 {
                    assert(before[cx as int] == grid@[cx as int]@);
                    assert(before[cx as int].len() == height);
                    grid[cx as usize].set(cy as usize, 1);
                    assert(cells(&grid) =~~= before.update(cx as int, before[cx as int].update(cy as int, 1)));
                } else {
                    assert(cells(&grid) == before);
                }
                assert(cells(&grid) =~~= marking(
                    walls@,
                    k as int,
                    dx as int,
                    dy + 1,
                    width as int,
                    height as int,
                ));
                dy = dy + 1;
            }
            assert(marking(walls@, k as int, dx as int, 2, width as int, height as int) =~~= marking(
                walls@,
                k as int,
                dx + 1,
                -1,
                width as int,
                height as int,
            ));
            dx = dx + 1;
        }
        assert(marking(walls@, k as int, 2, -1, width as int, height as int) =~~= marking(
            walls@,
            k + 1,
            -1,
            -1,
            width as int,
            height as int,
        )) by {
            assert forall|i: int, j: int| 0 <= i < width && 0 <= j < height implies (walled(
                walls@.take(k + 1),
                i,
                j,
            ) <==> walled(walls@.take(k as int), i, j) || in_block(walls@[k as int], i, j)) by {
                lemma_walled_take(walls@, k as int, i, j);
            }
        }
        k = k + 1;
    }
    assert(walls@.take(walls.len() as int) =~= walls@);
    assert(cells(&grid) =~~= wall_cells(walls@, width as int, height as int));
    assert(grid_ok(cells(&grid))) by {
        if width > 0 {
            assert(cells(&grid)[0].len() == height);
        }
        assert forall|i: int| 0 <= i < cells(&grid).len() implies #[trigger] cells(&grid)[i].len()
            >= grid_height(cells(&grid)) by {
            assert(cells(&grid)[i].len() == height);
            if width > 0 {
                assert(cells(&grid)[0].len() == height);
            }
        }
    }
    grid
}

/// Law of the collision grid: it has `width` columns of `height` cells; a
/// cell holds 1 exactly when some wall lies at most one cell away from it on
/// each axis (the cell is in that wall's 3x3 block), and 0 otherwise.
pub proof fn lemma_wall_cells(walls: Seq<Wall>, width: int, height: int)
    requires
        width >= 0,
        height >= 0,
    ensures
        wall_cells(walls, width, height).len() == width,
        forall|x: int|
            0 <= x < width ==> (#[trigger] wall_cells(walls, width, height)[x]).len() == height,
        forall|x: int, y: int|
            0 <= x < width && 0 <= y < height ==> (#[trigger] wall_cells(walls, width, height)[x][y] == 1
                <==> exists|k: int|
                0 <= k < walls.len() && (#[trigger] walls[k]).x - 1 <= x <= walls[k].x + 1 && walls[k].y - 1 <= y
                    <= walls[k].y + 1),
        forall|x: int, y: int|
            0 <= x < width && 0 <= y < height ==> #[trigger] wall_cells(walls, width, height)[x][y] == 0
                || wall_cells(walls, width, height)[x][y] == 1,
{
    let c = wall_cells(walls, width, height);
    assert forall|x: int, y: int| 0 <= x < width && 0 <= y < height implies (#[trigger] c[x][y] == 1
        <==> exists|k: int|
        0 <= k < walls.len() && (#[trigger] walls[k]).x - 1 <= x <= walls[k].x + 1 && walls[k].y - 1 <= y
            <= walls[k].y + 1) by {
        if walled(walls, x, y) {
            let k = choose|k: int| 0 <= k < walls.len() && #[trigger] in_block(walls[k], x, y);
            assert(walls[k].x - 1 <= x <= walls[k].x + 1);
        }
        if exists|k: int|
            0 <= k < walls.len() && (#[trigger] walls[k]).x - 1 <= x <= walls[k].x + 1 && walls[k].y - 1 <= y
                <= walls[k].y + 1 {
            let k = choose|k: int|
                0 <= k < walls.len() && (#[trigger] walls[k]).x - 1 <= x <= walls[k].x + 1 && walls[k].y - 1 <= y
                    <= walls[k].y + 1;
            assert(in_block(walls[k], x, y));
        }
    }
}

} // verus!
