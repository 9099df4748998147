use crate::utils::dist;
use std::collections::{HashMap, HashSet, VecDeque};
use vstd::prelude::*;

verus! {

broadcast use vstd::std_specs::hash::group_hash_axioms;

/// A cell of a labyrinth, by column and row.
#[derive(Debug, Clone, Copy, PartialEq, Eq, Hash)]
pub struct Position {
    pub x: u32,
    pub y: u32,
}

/// A described cell of a labyrinth; cells of type `"wall"` cannot be entered.
pub struct GridCell {
    pub cell_type: String,
    pub x: u32,
    pub y: u32,
}

/// A labyrinth of `width` x `height` cells with a start, a goal and the
/// described cells.
pub struct Labyrinth {
    pub width: u32,
    pub height: u32,
    pub start: Position,
    pub goal: Position,
    pub grid: Vec<GridCell>,
}

/// One number for each cell: the column in the high half, the row in the low
/// half.
pub open spec fn key_of(p: Position) -> u64 {
    ((p.x as int) * 0x1_0000_0000 + (p.y as int)) as u64
}

/// Different cells have different numbers.
pub proof fn lemma_key_injective(p: Position, q: Position)
    ensures
        key_of(p) == key_of(q) ==> p == q,
{
    assert(0 <= (p.x as int) * 0x1_0000_0000 + (p.y as int) < 0x1_0000_0000_0000_0000) by (nonlinear_arith);
    assert(0 <= (q.x as int) * 0x1_0000_0000 + (q.y as int) < 0x1_0000_0000_0000_0000) by (nonlinear_arith);
    if key_of(p) == key_of(q) {
        assert((p.x as int) * 0x1_0000_0000 + (p.y as int) == (q.x as int) * 0x1_0000_0000 + (q.y as int));
        assert(p.x == q.x && p.y == q.y) by (nonlinear_arith)
            requires
                (p.x as int) * 0x1_0000_0000 + (p.y as int) == (q.x as int) * 0x1_0000_0000 + (q.y as int),
                0 <= p.y < 0x1_0000_0000,
                0 <= q.y < 0x1_0000_0000,
        ;
    }
}

/// A described cell is a wall.
pub open spec fn is_wall_cell(c: GridCell) -> bool {
    c.cell_type@ == "wall"@
}

/// The cell `p` is described as a wall.
pub open spec fn wall_at(lab: Labyrinth, p: Position) -> bool {
    exists|j: int|
        #![trigger lab.grid@[j]]
        0 <= j < lab.grid@.len() && is_wall_cell(lab.grid@[j]) && lab.grid@[j].x == p.x
            && lab.grid@[j].y == p.y
}

/// The cell `p` lies inside the labyrinth and is not a wall.
pub open spec fn open_cell(lab: Labyrinth, p: Position) -> bool {
    p.x < lab.width && p.y < lab.height && !wall_at(lab, p)
}

/// One move: from `p` to a side neighbour `q` that is open.
pub open spec fn step(lab: Labyrinth, p: Position, q: Position) -> bool {
    dist(p.x as int, q.x as int) + dist(p.y as int, q.y as int) == 1 && open_cell(lab, q)
}

/// The move from point `i` to point `i + 1` of `w` is a step.
pub open spec fn links(lab: Labyrinth, w: Seq<Position>, i: int) -> bool {
    step(lab, w[i], w[i + 1])
}

/// `w` is a walk from the start of the labyrinth to `p`, one step at a time.
pub open spec fn walk_to(lab: Labyrinth, w: Seq<Position>, p: Position) -> bool {
    &&& w.len() >= 1
    &&& w[0] == lab.start
    &&& w[w.len() - 1] == p
    &&& forall|i: int| 0 <= i < w.len() - 1 ==> #[trigger] links(lab, w, i)
}

/// `path` is a walk from the start to the goal with no more steps than any
/// other.
pub open spec fn shortest_route(lab: Labyrinth, path: Seq<Position>) -> bool {
    &&& walk_to(lab, path, lab.goal)
    &&& forall|w: Seq<Position>| walk_to(lab, w, lab.goal) ==> path.len() <= w.len()
}

/// Every walk from the start to `p` has at least `n` steps.
pub open spec fn far_enough(lab: Labyrinth, p: Position, n: nat) -> bool {
    forall|w: Seq<Position>| #[trigger] walk_to(lab, w, p) ==> w.len() >= n + 1
}

/// Every open side neighbour of `p` has been reached.
pub open spec fn closed(lab: Labyrinth, seen: Set<u64>, p: Position) -> bool {
    forall|q: Position| #[trigger] step(lab, p, q) ==> seen.contains(key_of(q))
}

/// A coordinate at which the search's 32-bit signed arithmetic would wrap
/// around or overflow.
pub open spec fn wrapping_coordinate(v: u32) -> bool {
    v == 0x7fff_ffff || v == 0x8000_0000 || v == 0xffff_ffff
}

/// The four side moves, in the order in which they are tried: up, down,
/// left, right.
pub open spec fn side(t: int) -> (int, int) {
    if t == 0 {
        (0, -1)
    } else if t == 1 {
        (0, 1)
    } else if t == 2 {
        (-1, 0)
    } else {
        (1, 0)
    }
}

/// The cell one side move `t` away from `p`, if it lies inside the labyrinth.
pub open spec fn side_cell(lab: Labyrinth, p: Position, t: int) -> Option<Position> {
    let nx = p.x + side(t).0;
    let ny = p.y + side(t).1;
    if 0 <= nx < lab.width && 0 <= ny < lab.height {
        Some(Position { x: nx as u32, y: ny as u32 })
    } else {
        None
    }
}

/// What the search keeps true: every reached cell was reached by a shortest
/// walk whose last step is recorded in `came`, with `d` its number of steps;
/// `pending` (the cells still to expand, in order) has labels between `lo`
/// and `lo + 1`, ascending; every reached cell not pending has all its open
/// neighbours reached; the goal, once reached, is pending.
pub open spec fn bfs_inv(
    lab: Labyrinth,
    seen: Set<u64>,
    came: Map<u64, Position>,
    d: Map<u64, nat>,
    pending: Seq<Position>,
    lo: nat,
) -> bool {
    &&& seen.contains(key_of(lab.start))
    &&& d[key_of(lab.start)] == 0
    &&& forall|p: Position|
        #[trigger] seen.contains(key_of(p)) && p != lab.start ==> {
            &&& came.contains_key(key_of(p))
            &&& seen.contains(key_of(came[key_of(p)]))
            &&& d[key_of(came[key_of(p)])] + 1 == d[key_of(p)]
            &&& step(lab, came[key_of(p)], p)
        }
    &&& forall|i: int|
        0 <= i < pending.len() ==> seen.contains(key_of(#[trigger] pending[i])) && lo <= d[key_of(
            pending[i],
        )] <= lo + 1
    &&& forall|i: int, j: int|
        0 <= i <= j < pending.len() ==> d[key_of(#[trigger] pending[i])] <= d[key_of(
            #[trigger] pending[j],
        )]
    &&& forall|p: Position|
        #[trigger] seen.contains(key_of(p)) && !pending.contains(p) ==> closed(lab, seen, p)
    &&& forall|p: Position| #[trigger] seen.contains(key_of(p)) ==> far_enough(lab, p, d[key_of(p)])
    &&& seen.contains(key_of(lab.goal)) ==> pending.contains(lab.goal)
}

/// Along a walk that starts at a reached cell and ends at one not reached,
/// there is a step from a reached cell to one not reached.
proof fn lemma_first_unseen(seen: Set<u64>, w: Seq<Position>, i: int) -> (j: int)
    requires
        0 <= i < w.len(),
        seen.contains(key_of(w[i])),
        !seen.contains(key_of(w[w.len() - 1])),
    ensures
        i < j < w.len(),
        seen.contains(key_of(w[j - 1])),
        !seen.contains(key_of(w[j])),
    decreases w.len() - i,
{
    if !seen.contains(key_of(w[i + 1])) {
        i + 1
    } else {
        lemma_first_unseen(seen, w, i + 1)
    }
}

/// A walk cut after its point `j - 1` is a walk to that point.
proof fn lemma_walk_prefix(lab: Labyrinth, w: Seq<Position>, p: Position, j: int)
    requires
        walk_to(lab, w, p),
        1 <= j <= w.len(),
    ensures
        walk_to(lab, w.take(j), w[j - 1]),
{
    let v = w.take(j);
    assert forall|i: int| 0 <= i < v.len() - 1 implies #[trigger] links(lab, v, i) by {
        assert(links(lab, w, i));
    }
}

/// A cell not reached yet is at least one step further than the lowest
/// pending label.
proof fn lemma_unseen_is_far(
    lab: Labyrinth,
    seen: Set<u64>,
    came: Map<u64, Position>,
    d: Map<u64, nat>,
    pending: Seq<Position>,
    lo: nat,
    n: Position,
)
    requires
        bfs_inv(lab, seen, came, d, pending, lo),
        !seen.contains(key_of(n)),
    ensures
        far_enough(lab, n, lo + 1),
{
    assert forall|w: Seq<Position>| #[trigger] walk_to(lab, w, n) implies w.len() >= lo + 2 by {
        let j = lemma_first_unseen(seen, w, 0);
        let u = w[j - 1];
        assert(links(lab, w, j - 1));
        if !pending.contains(u) {
            assert(closed(lab, seen, u));
            assert(step(lab, u, w[j]));
        }
        let t = choose|t: int| 0 <= t < pending.len() && pending[t] == u;
        assert(lo <= d[key_of(pending[t])]);
        lemma_walk_prefix(lab, w, n, j);
        assert(far_enough(lab, u, d[key_of(u)]));
        assert(walk_to(lab, w.take(j), u));
    }
}

/// When nothing is pending, every cell reachable by a walk has been reached.
proof fn lemma_all_reached(
    lab: Labyrinth,
    seen: Set<u64>,
    came: Map<u64, Position>,
    d: Map<u64, nat>,
    lo: nat,
    w: Seq<Position>,
    p: Position,
)
    requires
        bfs_inv(lab, seen, came, d, Seq::empty(), lo),
        walk_to(lab, w, p),
    ensures
        seen.contains(key_of(p)),
{
    if !seen.contains(key_of(p)) {
        let j = lemma_first_unseen(seen, w, 0);
        let u = w[j - 1];
        assert(links(lab, w, j - 1));
        assert(!Seq::<Position>::empty().contains(u));
        assert(closed(lab, seen, u));
        assert(step(lab, u, w[j]));
    }
}

/// The number of a cell.
fn cell_key(x: u32, y: u32) -> (k: u64)
    ensures
        k == key_of(Position { x, y }),
{
    proof {
        assert(0 <= (x as int) * 0x1_0000_0000 + (y as int) < 0x1_0000_0000_0000_0000) by (nonlinear_arith);
    }
    x as u64 * 0x1_0000_0000 + y as u64
}

/// The side move number `t` (of four).
fn side_at(t: usize) -> (d: (i64, i64))
    requires
        t < 4,
    ensures
        d.0 == side(t as int).0,
        d.1 == side(t as int).1,
{
    if t == 0 {
        (0, -1)
    } else if t == 1 {
        (0, 1)
    } else if t == 2 {
        (-1, 0)
    } else {
        (1, 0)
    }
}

/// The numbers of the cells described as walls.
fn wall_keys(lab: &Labyrinth) -> (walls: HashSet<u64>)
    ensures
        forall|p: Position| #[trigger] walls@.contains(key_of(p)) <==> wall_at(*lab, p),
{
    let mut walls: HashSet<u64> = HashSet::new();
    let wall_word = String::from_str("wall");
    let mut i: usize = 0;
    while i < lab.grid.len()
        invariant
            i <= lab.grid.len(),
            wall_word@ == "wall"@,
            forall|k: u64|
                #[trigger] walls@.contains(k) <==> exists|j: int|
                    0 <= j < i && is_wall_cell(#[trigger] lab.grid@[j]) && key_of(
                        Position { x: lab.grid@[j].x, y: lab.grid@[j].y },
                    ) == k,
        decreases lab.grid.len() - i,
    {
        let c = &lab.grid[i];
        if c.cell_type == wall_word {
            let k = cell_key(c.x, c.y);
            walls.insert(k);
            assert(is_wall_cell(lab.grid@[i as int]));
        }
        i = i + 1;
    }
    assert forall|p: Position| #[trigger] walls@.contains(key_of(p)) <==> wall_at(*lab, p) by {
        if walls@.contains(key_of(p)) {
            let j = choose|j: int|
                0 <= j < lab.grid.len() && is_wall_cell(#[trigger] lab.grid@[j]) && key_of(
                    Position { x: lab.grid@[j].x, y: lab.grid@[j].y },
                ) == key_of(p);
            lemma_key_injective(Position { x: lab.grid@[j].x, y: lab.grid@[j].y }, p);
        }
        if wall_at(*lab, p) {
            let j = choose|j: int|
                #![trigger lab.grid@[j]]
                0 <= j < lab.grid@.len() && is_wall_cell(lab.grid@[j]) && lab.grid@[j].x == p.x
                    && lab.grid@[j].y == p.y;
            assert(Position { x: lab.grid@[j].x, y: lab.grid@[j].y } == p);
        }
    }
    walls
}

/// The number of the move from `p` to `q` in the order in which moves are
/// tried: up 0, down 1, left 2, right 3 (4 for anything else).
pub open spec fn move_rank(p: Position, q: Position) -> int {
    if q.x == p.x && q.y + 1 == p.y {
        0
    } else if q.x == p.x && q.y == p.y + 1 {
        1
    } else if q.x + 1 == p.x && q.y == p.y {
        2
    } else if q.x == p.x + 1 && q.y == p.y {
        3
    } else {
        4
    }
}

/// `a` and `b` share their first `k` points, and then `a` makes a move tried
/// before the one `b` makes.
pub open spec fn diverges_at(a: Seq<Position>, b: Seq<Position>, k: int) -> bool {
    &&& 1 <= k < a.len()
    &&& k < b.len()
    &&& a.take(k) == b.take(k)
    &&& move_rank(a[k - 1], a[k]) < move_rank(b[k - 1], b[k])
}

/// `a` comes before `b` among walks of the same length: at the first point
/// where they part, `a`'s move is tried first (up, down, left, right).
pub open spec fn earlier_walk(a: Seq<Position>, b: Seq<Position>) -> bool {
    a.len() == b.len() && exists|k: int| #[trigger] diverges_at(a, b, k)
}

/// `t` is a walk of `n` steps to `p` that comes before every other walk of
/// `n` steps to `p`.
pub open spec fn first_walk(lab: Labyrinth, p: Position, t: Seq<Position>, n: nat) -> bool {
    forall|w: Seq<Position>|
        #[trigger] walk_to(lab, w, p) && w.len() == n + 1 ==> w == t || earlier_walk(t, w)
}

/// `path` is a shortest route to the goal, and among the shortest routes the
/// first one when moves are tried up, down, left, right.
pub open spec fn first_route(lab: Labyrinth, path: Seq<Position>) -> bool {
    &&& shortest_route(lab, path)
    &&& forall|w: Seq<Position>|
        walk_to(lab, w, lab.goal) && w.len() == path.len() ==> w == path || earlier_walk(path, w)
}

proof fn lemma_earlier_trans(a: Seq<Position>, b: Seq<Position>, c: Seq<Position>)
    requires
        earlier_walk(a, b),
        earlier_walk(b, c),
    ensures
        earlier_walk(a, c),
{
    let k1 = choose|k: int| #[trigger] diverges_at(a, b, k);
    let k2 = choose|k: int| #[trigger] diverges_at(b, c, k);
    if k1 < k2 {
        assert(a.take(k1) =~= c.take(k1)) by {
            assert forall|i: int| 0 <= i < k1 implies a[i] == c[i] by {
                assert(a.take(k1)[i] == b.take(k1)[i]);
                assert(b.take(k2)[i] == c.take(k2)[i]);
            }
        }
        assert(b.take(k2)[k1] == c.take(k2)[k1]);
        assert(b.take(k2)[k1 - 1] == c.take(k2)[k1 - 1]);
        assert(diverges_at(a, c, k1));
    } else if k2 < k1 {
        assert(a.take(k2) =~= c.take(k2)) by {
            assert forall|i: int| 0 <= i < k2 implies a[i] == c[i] by {
                assert(a.take(k1)[i] == b.take(k1)[i]);
                assert(b.take(k2)[i] == c.take(k2)[i]);
            }
        }
        assert(a.take(k1)[k2] == b.take(k1)[k2]);
        assert(a.take(k1)[k2 - 1] == b.take(k1)[k2 - 1]);
        assert(diverges_at(a, c, k2));
    } else {
        assert(a.take(k1) =~= c.take(k1)) by {
            assert forall|i: int| 0 <= i < k1 implies a[i] == c[i] by {
                assert(a.take(k1)[i] == b.take(k1)[i]);
                assert(b.take(k2)[i] == c.take(k2)[i]);
            }
        }
        assert(a.take(k1)[k1 - 1] == b.take(k1)[k1 - 1]);
        assert(b.take(k1)[k1 - 1] == c.take(k1)[k1 - 1]);
        assert(diverges_at(a, c, k1));
    }
}

proof fn lemma_earlier_push(a: Seq<Position>, b: Seq<Position>, x: Position, y: Position)
    requires
        earlier_walk(a, b),
    ensures
        earlier_walk(a.push(x), b.push(y)),
{
    let k = choose|k: int| #[trigger] diverges_at(a, b, k);
    assert(a.push(x).take(k) =~= a.take(k));
    assert(b.push(y).take(k) =~= b.take(k));
    assert(diverges_at(a.push(x), b.push(y), k));
}

proof fn lemma_earlier_last(a: Seq<Position>, x: Position, y: Position)
    requires
        a.len() >= 1,
        move_rank(a[a.len() - 1], x) < move_rank(a[a.len() - 1], y),
    ensures
        earlier_walk(a.push(x), a.push(y)),
{
    let k = a.len() as int;
    assert(a.push(x).take(k) =~= a.push(y).take(k));
    assert(diverges_at(a.push(x), a.push(y), k));
}

/// What the search keeps true of the order in which it reaches cells: each
/// reached cell keeps the walk by which it was reached (`tp`), one step
/// after the walk of the cell it came from; that walk is the first of the
/// shortest walks to the cell; and the pending cells of one label are in the
/// order of their walks.
pub open spec fn order_inv(
    lab: Labyrinth,
    seen: Set<u64>,
    came: Map<u64, Position>,
    d: Map<u64, nat>,
    tp: Map<u64, Seq<Position>>,
    pending: Seq<Position>,
) -> bool {
    &&& tp[key_of(lab.start)] == seq![lab.start]
    &&& forall|p: Position|
        #[trigger] seen.contains(key_of(p)) ==> walk_to(lab, tp[key_of(p)], p) && tp[key_of(p)].len()
            == d[key_of(p)] + 1 && first_walk(lab, p, tp[key_of(p)], d[key_of(p)])
    &&& forall|p: Position|
        #[trigger] seen.contains(key_of(p)) && p != lab.start ==> tp[key_of(p)] == tp[key_of(
            came[key_of(p)],
        )].push(p)
    &&& forall|i: int, j: int|
        0 <= i < j < pending.len() && d[key_of(#[trigger] pending[i])] == d[key_of(
            #[trigger] pending[j],
        )] ==> earlier_walk(tp[key_of(pending[i])], tp[key_of(pending[j])])
}

/// Between expansions: the walk of every pending cell one label further
/// than another pending cell continues a walk that comes before that cell's.
pub open spec fn parents_first(d: Map<u64, nat>, tp: Map<u64, Seq<Position>>, pending: Seq<Position>) -> bool {
    forall|i: int, j: int|
        0 <= i < pending.len() && 0 <= j < pending.len() && d[key_of(#[trigger] pending[i])] == d[key_of(
            #[trigger] pending[j],
        )] + 1 ==> earlier_walk(tp[key_of(pending[i])].drop_last(), tp[key_of(pending[j])])
}

/// While `c` is expanded through its first `t` side moves: every pending
/// cell one label further than `c` continues a walk that comes before
/// `c`'s, or `c`'s own walk by a move tried before move `t`.
pub open spec fn children_first(
    d: Map<u64, nat>,
    tp: Map<u64, Seq<Position>>,
    pending: Seq<Position>,
    c: Position,
    lo: nat,
    t: int,
) -> bool {
    forall|i: int|
        0 <= i < pending.len() && d[key_of(#[trigger] pending[i])] == lo + 1 ==> earlier_walk(
            tp[key_of(pending[i])].drop_last(),
            tp[key_of(c)],
        ) || (tp[key_of(pending[i])].drop_last() == tp[key_of(c)] && move_rank(c, pending[i]) < t)
}

/// The walk by which `n` is reached from the cell `c` being expanded comes
/// first among the shortest walks to `n`.
#[verifier::spinoff_prover]
#[verifier::rlimit(40)]
proof fn lemma_new_walk_first(
    lab: Labyrinth,
    seen: Set<u64>,
    came: Map<u64, Position>,
    d: Map<u64, nat>,
    tp: Map<u64, Seq<Position>>,
    pending: Seq<Position>,
    lo: nat,
    c: Position,
    n: Position,
)
    requires
        bfs_inv(lab, seen, came, d, pending, lo),
        order_inv(lab, seen, came, d, tp, pending),
        pending.len() > 0,
        pending[0] == c,
        d[key_of(c)] == lo,
        step(lab, c, n),
        !seen.contains(key_of(n)),
    ensures
        first_walk(lab, n, tp[key_of(c)].push(n), lo + 1),
{
    let tn = tp[key_of(c)].push(n);
    assert(seen.contains(key_of(c)));
    assert forall|w: Seq<Position>| #[trigger] walk_to(lab, w, n) && w.len() == lo + 2 implies w
            == tn || earlier_walk(tn, w) by {
            let dd = (lo + 1) as int;
            let u = w[dd - 1];
            let wu = w.take(dd);
            lemma_walk_prefix(lab, w, n, dd);
            assert(links(lab, w, dd - 1));
            assert(step(lab, u, n));
            if !seen.contains(key_of(u)) {
                lemma_unseen_is_far(lab, seen, came, d, pending, lo, u);
                assert(walk_to(lab, wu, u));
            }
            if !pending.contains(u) {
                assert(closed(lab, seen, u));
            }
            let iu = choose|iu: int| 0 <= iu < pending.len() && pending[iu] == u;
            assert(lo <= d[key_of(pending[iu])]);
            assert(far_enough(lab, u, d[key_of(u)]));
            assert(walk_to(lab, wu, u));
            assert(d[key_of(u)] == lo);
            assert(first_walk(lab, u, tp[key_of(u)], d[key_of(u)]));
            assert(wu == tp[key_of(u)] || earlier_walk(tp[key_of(u)], wu));
            assert(w =~= wu.push(n));
            if iu > 0 {
                assert(earlier_walk(tp[key_of(pending[0])], tp[key_of(pending[iu])]));
                if wu != tp[key_of(u)] {
                    lemma_earlier_trans(tp[key_of(c)], tp[key_of(u)], wu);
                }
                lemma_earlier_push(tp[key_of(c)], wu, n, n);
            } else if wu != tp[key_of(c)] {
                lemma_earlier_push(tp[key_of(c)], wu, n, n);
            }
        }
}

/// Reaching `n` from `c` by side move `t` keeps the order invariant.
#[verifier::spinoff_prover]
#[verifier::rlimit(40)]
proof fn lemma_visit_order(
    lab: Labyrinth,
    seen: Set<u64>,
    came: Map<u64, Position>,
    d: Map<u64, nat>,
    tp: Map<u64, Seq<Position>>,
    pending: Seq<Position>,
    lo: nat,
    c: Position,
    n: Position,
    t: int,
)
    requires
        bfs_inv(lab, seen, came, d, pending, lo),
        order_inv(lab, seen, came, d, tp, pending),
        children_first(d, tp, pending, c, lo, t),
        pending.len() > 0,
        pending[0] == c,
        d[key_of(c)] == lo,
        step(lab, c, n),
        move_rank(c, n) == t,
        !seen.contains(key_of(n)),
    ensures
        ({
            let seen2 = seen.insert(key_of(n));
            let came2 = came.insert(key_of(n), c);
            let d2 = d.insert(key_of(n), lo + 1);
            let tp2 = tp.insert(key_of(n), tp[key_of(c)].push(n));
            let pending2 = pending.push(n);
            &&& order_inv(lab, seen2, came2, d2, tp2, pending2)
            &&& children_first(d2, tp2, pending2, c, lo, t + 1)
        }),
{
    let seen2 = seen.insert(key_of(n));
    let came2 = came.insert(key_of(n), c);
    let d2 = d.insert(key_of(n), lo + 1);
    let tn = tp[key_of(c)].push(n);
    let tp2 = tp.insert(key_of(n), tn);
    let pending2 = pending.push(n);
    assert(seen.contains(key_of(c)));
    assert(key_of(c) != key_of(n));
    assert(key_of(lab.start) != key_of(n));
    // the walk by which n is reached
    assert(walk_to(lab, tn, n)) by {
        let tc = tp[key_of(c)];
        assert(walk_to(lab, tc, c));
        assert forall|i: int| 0 <= i < tn.len() - 1 implies #[trigger] links(lab, tn, i) by {
            if i < tc.len() - 1 {
                assert(links(lab, tc, i));
            }
        }
    }
    lemma_new_walk_first(lab, seen, came, d, tp, pending, lo, c, n);
    assert forall|p: Position| #[trigger] seen2.contains(key_of(p)) implies walk_to(
        lab,
        tp2[key_of(p)],
        p,
    ) && tp2[key_of(p)].len() == d2[key_of(p)] + 1 && first_walk(
        lab,
        p,
        tp2[key_of(p)],
        d2[key_of(p)],
    ) by {
        lemma_key_injective(p, n);
        if p != n {
            assert(seen.contains(key_of(p)));
        }
    }
    assert forall|p: Position| #[trigger] seen2.contains(key_of(p)) && p != lab.start implies tp2[key_of(
        p,
    )] == tp2[key_of(came2[key_of(p)])].push(p) by {
        lemma_key_injective(p, n);
        if p != n {
            assert(seen.contains(key_of(p)));
            assert(seen.contains(key_of(came[key_of(p)])));
            lemma_key_injective(came[key_of(p)], n);
        }
    }
    assert forall|i: int, j: int|
        0 <= i < j < pending2.len() && d2[key_of(#[trigger] pending2[i])] == d2[key_of(
            #[trigger] pending2[j],
        )] implies earlier_walk(tp2[key_of(pending2[i])], tp2[key_of(pending2[j])]) by {
        assert(seen.contains(key_of(pending[i])));
        lemma_key_injective(pending[i], n);
        if j < pending.len() {
            assert(seen.contains(key_of(pending[j])));
            lemma_key_injective(pending[j], n);
        } else {
            let x = pending[i];
            let tx = tp[key_of(x)];
            assert(x != lab.start) by {
                if x == lab.start {
                    assert(d[key_of(x)] == 0);
                }
            }
            assert(tx == tp[key_of(came[key_of(x)])].push(x));
            assert(tx =~= tx.drop_last().push(x));
            if earlier_walk(tx.drop_last(), tp[key_of(c)]) {
                lemma_earlier_push(tx.drop_last(), tp[key_of(c)], x, n);
            } else {
                assert(walk_to(lab, tp[key_of(c)], c));
                lemma_earlier_last(tp[key_of(c)], x, n);
            }
        }
    }
    assert forall|i: int|
        0 <= i < pending2.len() && d2[key_of(#[trigger] pending2[i])] == lo + 1 implies earlier_walk(
        tp2[key_of(pending2[i])].drop_last(),
        tp2[key_of(c)],
    ) || (tp2[key_of(pending2[i])].drop_last() == tp2[key_of(c)] && move_rank(c, pending2[i]) < t
        + 1) by {
        if i < pending.len() {
            assert(seen.contains(key_of(pending[i])));
            lemma_key_injective(pending[i], n);
        }
    }
}

/// Once `c` is expanded and leaves the pending cells, the walks of the next
/// label's pending cells continue walks that come before those of the
/// remaining cells of `c`'s label.
proof fn lemma_expanded_order(
    lab: Labyrinth,
    seen: Set<u64>,
    came: Map<u64, Position>,
    d: Map<u64, nat>,
    tp: Map<u64, Seq<Position>>,
    pending: Seq<Position>,
    lo: nat,
    c: Position,
)
    requires
        bfs_inv(lab, seen, came, d, pending, lo),
        order_inv(lab, seen, came, d, tp, pending),
        children_first(d, tp, pending, c, lo, 4),
        pending.len() > 0,
        pending[0] == c,
        d[key_of(c)] == lo,
    ensures
        order_inv(lab, seen, came, d, tp, pending.drop_first()),
        parents_first(d, tp, pending.drop_first()),
{
    let rest = pending.drop_first();
    assert forall|i: int, j: int|
        0 <= i < j < rest.len() && d[key_of(#[trigger] rest[i])] == d[key_of(#[trigger] rest[j])] implies earlier_walk(
        tp[key_of(rest[i])],
        tp[key_of(rest[j])],
    ) by {
        assert(rest[i] == pending[i + 1]);
        assert(rest[j] == pending[j + 1]);
    }
    assert forall|i: int, j: int|
        0 <= i < rest.len() && 0 <= j < rest.len() && d[key_of(#[trigger] rest[i])] == d[key_of(
            #[trigger] rest[j],
        )] + 1 implies earlier_walk(tp[key_of(rest[i])].drop_last(), tp[key_of(rest[j])]) by {
        assert(rest[i] == pending[i + 1]);
        assert(rest[j] == pending[j + 1]);
        assert(lo <= d[key_of(pending[j + 1])] <= lo + 1);
        assert(lo <= d[key_of(pending[i + 1])] <= lo + 1);
        assert(d[key_of(pending[j + 1])] == lo);
        assert(earlier_walk(tp[key_of(pending[0])], tp[key_of(pending[j + 1])]));
        if earlier_walk(tp[key_of(rest[i])].drop_last(), tp[key_of(c)]) {
            lemma_earlier_trans(tp[key_of(rest[i])].drop_last(), tp[key_of(c)], tp[key_of(rest[j])]);
        }
    }
}

/// Starting to expand the first pending cell `c`: the walks of the next
/// label's pending cells continue walks that come before `c`'s.
proof fn lemma_start_expanding(
    d: Map<u64, nat>,
    tp: Map<u64, Seq<Position>>,
    pending: Seq<Position>,
    c: Position,
)
    requires
        parents_first(d, tp, pending),
        pending.len() > 0,
        pending[0] == c,
    ensures
        children_first(d, tp, pending, c, d[key_of(c)], 0),
{
    assert forall|i: int|
        0 <= i < pending.len() && d[key_of(#[trigger] pending[i])] == d[key_of(c)] + 1 implies earlier_walk(
        tp[key_of(pending[i])].drop_last(),
        tp[key_of(c)],
    ) || (tp[key_of(pending[i])].drop_last() == tp[key_of(c)] && move_rank(c, pending[i]) < 0) by {
        assert(d[key_of(pending[i])] == d[key_of(pending[0])] + 1);
    }
}

/// The last point of `back` comes from `curr`: `back` lists a walk backwards.
pub open spec fn back_links(lab: Labyrinth, back: Seq<Position>, i: int) -> bool {
    step(lab, back[i + 1], back[i])
}

/// Expanding `pending[0]` may start with its own label as the lowest one.
proof fn lemma_relabel(
    lab: Labyrinth,
    seen: Set<u64>,
    came: Map<u64, Position>,
    d: Map<u64, nat>,
    pending: Seq<Position>,
    lo: nat,
)
    requires
        bfs_inv(lab, seen, came, d, pending, lo),
        pending.len() > 0,
    ensures
        bfs_inv(lab, seen, came, d, pending, d[key_of(pending[0])]),
        lo <= d[key_of(pending[0])],
{
    assert(seen.contains(key_of(pending[0])));
    assert forall|i: int| 0 <= i < pending.len() implies seen.contains(key_of(#[trigger] pending[i]))
        && d[key_of(pending[0])] <= d[key_of(pending[i])] <= d[key_of(pending[0])] + 1 by {
        assert(d[key_of(pending[0])] <= d[key_of(pending[i])]);
    }
}

/// Reaching the unreached open neighbour `n` of the cell `c` being expanded,
/// with label `lo + 1`, keeps the search invariant.
proof fn lemma_visit(
    lab: Labyrinth,
    seen: Set<u64>,
    came: Map<u64, Position>,
    d: Map<u64, nat>,
    pending: Seq<Position>,
    lo: nat,
    c: Position,
    n: Position,
)
    requires
        bfs_inv(lab, seen, came, d, pending, lo),
        pending.len() > 0,
        pending[0] == c,
        d[key_of(c)] == lo,
        step(lab, c, n),
        !seen.contains(key_of(n)),
    ensures
        bfs_inv(
            lab,
            seen.insert(key_of(n)),
            came.insert(key_of(n), c),
            d.insert(key_of(n), lo + 1),
            pending.push(n),
            lo,
        ),
{
    lemma_unseen_is_far(lab, seen, came, d, pending, lo, n);
    let seen2 = seen.insert(key_of(n));
    let came2 = came.insert(key_of(n), c);
    let d2 = d.insert(key_of(n), lo + 1);
    let pending2 = pending.push(n);
    assert(seen.contains(key_of(c)));
    assert(d2[key_of(lab.start)] == 0);
    assert forall|p: Position| #[trigger] seen2.contains(key_of(p)) && p != lab.start implies {
        &&& came2.contains_key(key_of(p))
        &&& seen2.contains(key_of(came2[key_of(p)]))
        &&& d2[key_of(came2[key_of(p)])] + 1 == d2[key_of(p)]
        &&& step(lab, came2[key_of(p)], p)
    } by {
        lemma_key_injective(p, n);
        if p != n {
            assert(seen.contains(key_of(p)));
            lemma_key_injective(came[key_of(p)], n);
        }
    }
    assert forall|i: int| 0 <= i < pending2.len() implies seen2.contains(
        key_of(#[trigger] pending2[i]),
    ) && lo <= d2[key_of(pending2[i])] <= lo + 1 by {
        if i < pending.len() {
            assert(seen.contains(key_of(pending[i])));
        }
    }
    assert forall|i: int, j: int| 0 <= i <= j < pending2.len() implies d2[key_of(
        #[trigger] pending2[i],
    )] <= d2[key_of(#[trigger] pending2[j])] by {
        if j < pending.len() {
            assert(seen.contains(key_of(pending[i])));
            assert(seen.contains(key_of(pending[j])));
            assert(d[key_of(pending[i])] <= d[key_of(pending[j])]);
        } else if i < pending.len() {
            assert(seen.contains(key_of(pending[i])));
        }
    }
    assert forall|p: Position| #[trigger]
        seen2.contains(key_of(p)) && !pending2.contains(p) implies closed(lab, seen2, p) by {
        if p == n {
            assert(pending2[pending.len() as int] == n);
        } else {
            lemma_key_injective(p, n);
            if pending.contains(p) {
                let t = choose|t: int| 0 <= t < pending.len() && pending[t] == p;
                assert(pending2[t] == p);
            }
            assert(closed(lab, seen, p));
            assert forall|q: Position| #[trigger] step(lab, p, q) implies seen2.contains(key_of(q)) by {
                assert(seen.contains(key_of(q)));
            }
        }
    }
    assert forall|p: Position| #[trigger] seen2.contains(key_of(p)) implies far_enough(
        lab,
        p,
        d2[key_of(p)],
    ) by {
        lemma_key_injective(p, n);
    }
    if seen2.contains(key_of(lab.goal)) {
        lemma_key_injective(lab.goal, n);
        if lab.goal == n {
            assert(pending2[pending.len() as int] == n);
        } else {
            let t = choose|t: int| 0 <= t < pending.len() && pending[t] == lab.goal;
            assert(pending2[t] == lab.goal);
        }
    }
}

/// Every open side neighbour of `c` is one of its four side cells.
proof fn lemma_step_is_side(lab: Labyrinth, c: Position, q: Position) -> (t: int)
    requires
        step(lab, c, q),
    ensures
        0 <= t < 4,
        side_cell(lab, c, t) == Some(q),
{
    if q.x == c.x && q.y + 1 == c.y {
        0
    } else if q.x == c.x && q.y == c.y + 1 {
        1
    } else if q.x + 1 == c.x {
        2
    } else {
        3
    }
}

/// When all four side cells of `c` are reached or walls, `c` is closed.
proof fn lemma_sides_closed(lab: Labyrinth, seen: Set<u64>, c: Position)
    requires
        forall|s: int|
            0 <= s < 4 ==> (#[trigger] side_cell(lab, c, s) matches Some(q) ==> (wall_at(lab, q)
                || seen.contains(key_of(q)))),
    ensures
        closed(lab, seen, c),
{
    assert forall|q: Position| #[trigger] step(lab, c, q) implies seen.contains(key_of(q)) by {
        let t = lemma_step_is_side(lab, c, q);
        assert(side_cell(lab, c, t) == Some(q));
    }
}

/// Once the expanded cell `c` is closed, it leaves the pending cells and the
/// search invariant holds again.
#[verifier::spinoff_prover]
#[verifier::rlimit(40)]
proof fn lemma_expanded(
    lab: Labyrinth,
    seen: Set<u64>,
    came: Map<u64, Position>,
    d: Map<u64, nat>,
    pending: Seq<Position>,
    lo: nat,
    c: Position,
)
    requires
        bfs_inv(lab, seen, came, d, pending, lo),
        pending.len() > 0,
        pending[0] == c,
        c != lab.goal,
        closed(lab, seen, c),
    ensures
        bfs_inv(lab, seen, came, d, pending.drop_first(), lo),
{
    let rest = pending.drop_first();
    assert forall|i: int| 0 <= i < rest.len() implies seen.contains(key_of(#[trigger] rest[i])) && lo
        <= d[key_of(rest[i])] <= lo + 1 by {
        assert(rest[i] == pending[i + 1]);
    }
    assert forall|i: int, j: int| 0 <= i <= j < rest.len() implies d[key_of(#[trigger] rest[i])]
        <= d[key_of(#[trigger] rest[j])] by {
        assert(rest[i] == pending[i + 1]);
        assert(rest[j] == pending[j + 1]);
    }
    assert forall|p: Position| #[trigger]
        seen.contains(key_of(p)) && !rest.contains(p) implies closed(lab, seen, p) by {
        if p != c {
            if pending.contains(p) {
                let t = choose|t: int| 0 <= t < pending.len() && pending[t] == p;
                assert(rest[t - 1] == p);
            }
        }
    }
    if seen.contains(key_of(lab.goal)) {
        let t = choose|t: int| 0 <= t < pending.len() && pending[t] == lab.goal;
        assert(rest[t - 1] == lab.goal);
    }
}

/// A shortest walk from the start of the labyrinth to its goal, by
/// breadth-first search over side moves into open cells (the start itself is
/// not checked): of all shortest walks, the first when moves are tried up,
/// down, left, right; `None` when the goal cannot be reached.
#[verifier::spinoff_prover]
#[verifier::rlimit(50)]
pub fn solve_labyrinth(labyrinth: &Labyrinth) -> (r: Option<Vec<Position>>)
    requires
        labyrinth.width <= i32::MAX,
        labyrinth.height <= i32::MAX,
        labyrinth.start != labyrinth.goal ==> !wrapping_coordinate(labyrinth.start.x)
            && !wrapping_coordinate(labyrinth.start.y),
    ensures
        r is None ==> forall|w: Seq<Position>| !walk_to(*labyrinth, w, labyrinth.goal),
        r matches Some(path) ==> first_route(*labyrinth, path@),
{
    let ghost lab = *labyrinth;
    let walls = wall_keys(labyrinth);
    let start = labyrinth.start;
    let goal = labyrinth.goal;
    let mut queue: VecDeque<Position> = VecDeque::new();
    let mut visited: HashSet<u64> = HashSet::new();
    let mut came_from: HashMap<u64, Position> = HashMap::new();
    queue.push_back(start);
    let k0 = cell_key(start.x, start.y);
    visited.insert(k0);
    let ghost mut d: Map<u64, nat> = Map::empty().insert(key_of(start), 0);
    let ghost mut vi: Set<int> = Set::empty().insert(key_of(start) as int);
    let ghost mut lo: nat = 0;
    let ghost mut tp: Map<u64, Seq<Position>> = Map::empty().insert(key_of(start), seq![start]);
    let ghost all_keys = vstd::set_lib::set_int_range(0, 0x1_0000_0000_0000_0000);
    proof {
        vstd::set_lib::lemma_int_range(0, 0x1_0000_0000_0000_0000);
        assert(visited@ =~= set![key_of(start)]);
        assert forall|p: Position| #[trigger] visited@.contains(key_of(p)) implies p == start by {
            lemma_key_injective(p, start);
        }
        assert forall|p: Position| #[trigger] visited@.contains(key_of(p)) implies far_enough(
            lab,
            p,
            d[key_of(p)],
        ) by {
            assert(p == start);
        }
        assert(queue@[0] == start);
        assert forall|p: Position| #[trigger]
            visited@.contains(key_of(p)) && !queue@.contains(p) implies closed(lab, visited@, p) by {
            assert(p == start);
            assert(queue@[0] == start);
        }
        if visited@.contains(key_of(goal)) {
            assert(goal == start);
        }
        assert(vi.subset_of(all_keys));
        assert forall|p: Position| #[trigger] visited@.contains(key_of(p)) implies walk_to(
            lab,
            tp[key_of(p)],
            p,
        ) && tp[key_of(p)].len() == d[key_of(p)] + 1 && first_walk(lab, p, tp[key_of(p)], d[key_of(p)]) by {
            assert(p == start);
            assert forall|w: Seq<Position>| #[trigger] walk_to(lab, w, p) && w.len() == 0 + 1 implies w
                == tp[key_of(p)] || earlier_walk(tp[key_of(p)], w) by {
                assert(w =~= seq![start]);
            }
        }
        assert(order_inv(lab, visited@, came_from@, d, tp, queue@));
        assert(parents_first(d, tp, queue@));
    }
    loop
        invariant
            lab == *labyrinth,
            start == lab.start,
            goal == lab.goal,
            forall|p: Position| #[trigger] walls@.contains(key_of(p)) <==> wall_at(lab, p),
            bfs_inv(lab, visited@, came_from@, d, queue@, lo),
            order_inv(lab, visited@, came_from@, d, tp, queue@),
            parents_first(d, tp, queue@),
            all_keys == vstd::set_lib::set_int_range(0, 0x1_0000_0000_0000_0000),
            all_keys.finite(),
            all_keys.len() == 0x1_0000_0000_0000_0000,
            vi.finite(),
            vi.subset_of(all_keys),
            forall|k: u64| #[trigger] visited@.contains(k) <==> vi.contains(k as int),
        decreases 2 * (0x1_0000_0000_0000_0000 - vi.len()) + queue@.len(),
    {
        proof {
            vstd::set_lib::lemma_len_subset(vi, all_keys);
        }
        let ghost m0 = 2 * (0x1_0000_0000_0000_0000 - vi.len()) + queue@.len();
        let ghost before = queue@;
        let current = match queue.pop_front() {
            Some(c) => c,
            None => {
                proof {
                    assert(queue@ =~= Seq::<Position>::empty());
                    assert forall|w: Seq<Position>| !walk_to(lab, w, goal) by {
                        if walk_to(lab, w, goal) {
                            lemma_all_reached(lab, visited@, came_from@, d, lo, w, goal);
                        }
                    }
                }
                return None;
            },
        };
        proof {
            assert(before =~= seq![current] + queue@);
            lemma_relabel(lab, visited@, came_from@, d, before, lo);
            lemma_start_expanding(d, tp, before, current);
            lo = d[key_of(current)];
        }
        if current.x == goal.x && current.y == goal.y {
            assert(current == goal);
            let mut back: Vec<Position> = Vec::new();
            let mut curr = current;
            while !(curr.x == start.x && curr.y == start.y)
                invariant
                    lab == *labyrinth,
                    start == lab.start,
                    goal == lab.goal,
                    bfs_inv(lab, visited@, came_from@, d, before, lo),
                    order_inv(lab, visited@, came_from@, d, tp, before),
                    visited@.contains(key_of(curr)),
                    tp[key_of(goal)].len() == tp[key_of(curr)].len() + back@.len(),
                    tp[key_of(goal)].take(tp[key_of(curr)].len() as int) == tp[key_of(curr)],
                    forall|i: int|
                        0 <= i < back@.len() ==> #[trigger] back@[i] == tp[key_of(goal)][tp[key_of(
                            goal,
                        )].len() - 1 - i],
                    back@.len() + d[key_of(curr)] == d[key_of(goal)],
                    back@.len() == 0 ==> curr == goal,
                    back@.len() > 0 ==> back@[0] == goal && step(lab, curr, back@.last()),
                    forall|i: int| 0 <= i < back@.len() - 1 ==> #[trigger] back_links(lab, back@, i),
                decreases d[key_of(curr)],
            {
                assert(curr != start);
                let ghost prev_back = back@;
                let ghost tg = tp[key_of(goal)];
                let ghost tc = tp[key_of(curr)];
                back.push(curr);
                let k = cell_key(curr.x, curr.y);
                let prev = *came_from.get(&k).unwrap();
                assert forall|i: int| 0 <= i < back@.len() - 1 implies #[trigger] back_links(
                    lab,
                    back@,
                    i,
                ) by {
                    if i < prev_back.len() - 1 {
                        assert(back_links(lab, prev_back, i));
                    }
                }
                proof {
                    let tq = tp[key_of(prev)];
                    assert(tc == tq.push(curr));
                    assert(tc.len() == d[key_of(curr)] + 1);
                    assert(tg.take(tq.len() as int) =~= tq) by {
                        assert forall|j: int| 0 <= j < tq.len() implies tg.take(tq.len() as int)[j]
                            == tq[j] by {
                            assert(tg.take(tc.len() as int)[j] == tc[j]);
                        }
                    }
                    assert forall|j: int| 0 <= j < back@.len() implies #[trigger] back@[j] == tg[tg.len() - 1
                        - j] by {
                        if j < prev_back.len() {
                            assert(back@[j] == prev_back[j]);
                        } else {
                            assert(tg.take(tc.len() as int)[tc.len() - 1] == tc[tc.len() - 1]);
                        }
                    }
                }
                curr = prev;
            }
            assert(curr == start);
            assert(tp[key_of(curr)] == seq![start]);
            assert(tp[key_of(goal)][0] == start) by {
                assert(tp[key_of(goal)].take(1)[0] == seq![start][0]);
            }
            let mut path: Vec<Position> = Vec::new();
            path.push(curr);
            let mut i: usize = back.len();
            while i > 0
                invariant
                    lab == *labyrinth,
                    start == lab.start,
                    goal == lab.goal,
                    i <= back@.len(),
                    path@.len() == 1 + back@.len() - i,
                    path@[0] == start,
                    i == back@.len() ==> path@.last() == start,
                    i < back@.len() ==> path@.last() == back@[i as int],
                    back@.len() > 0 ==> back@[0] == goal && step(lab, start, back@.last()),
                    forall|j: int| 0 <= j < back@.len() - 1 ==> #[trigger] back_links(lab, back@, j),
                    forall|j: int| 0 <= j < path@.len() - 1 ==> #[trigger] links(lab, path@, j),
                    tp[key_of(goal)].len() == 1 + back@.len(),
                    tp[key_of(goal)][0] == start,
                    forall|j: int|
                        0 <= j < back@.len() ==> #[trigger] back@[j] == tp[key_of(goal)][tp[key_of(
                            goal,
                        )].len() - 1 - j],
                    path@ =~= tp[key_of(goal)].take(path@.len() as int),
                decreases i,
            {
                let ghost prev_path = path@;
                path.push(back[i - 1]);
                assert forall|j: int| 0 <= j < path@.len() - 1 implies #[trigger] links(lab, path@, j) by {
                    if j < prev_path.len() - 1 {
                        assert(links(lab, prev_path, j));
                    } else if i < back@.len() {
                        assert(back_links(lab, back@, i - 1));
                    }
                }
                i = i - 1;
            }
            assert(walk_to(lab, path@, goal));
            assert(far_enough(lab, goal, d[key_of(goal)]));
            assert(path@ =~= tp[key_of(goal)]);
            assert(first_walk(lab, goal, tp[key_of(goal)], d[key_of(goal)]));
            return Some(path);
        }
        assert(current != goal);
        let ghost c = current;
        let mut t: usize = 0;
        while t < 4
            invariant
                lab == *labyrinth,
                start == lab.start,
                goal == lab.goal,
                c == current,
                c != goal,
                forall|p: Position| #[trigger] walls@.contains(key_of(p)) <==> wall_at(lab, p),
                bfs_inv(lab, visited@, came_from@, d, seq![current] + queue@, lo),
                order_inv(lab, visited@, came_from@, d, tp, seq![current] + queue@),
                children_first(d, tp, seq![current] + queue@, current, lo, t as int),
                d[key_of(current)] == lo,
                t <= 4,
                forall|s: int|
                    0 <= s < t ==> (#[trigger] side_cell(lab, c, s) matches Some(q) ==> (wall_at(lab, q)
                        || visited@.contains(key_of(q)))),
                all_keys == vstd::set_lib::set_int_range(0, 0x1_0000_0000_0000_0000),
                all_keys.finite(),
                all_keys.len() == 0x1_0000_0000_0000_0000,
                vi.finite(),
                vi.subset_of(all_keys),
                forall|k: u64| #[trigger] visited@.contains(k) <==> vi.contains(k as int),
                2 * (0x1_0000_0000_0000_0000 - vi.len()) + queue@.len() < m0,
            decreases 4 - t,
        {
            let (dx, dy) = side_at(t);
            let nx = current.x as i64 + dx;
            let ny = current.y as i64 + dy;
            if nx >= 0 && ny >= 0 && nx < labyrinth.width as i64 && ny < labyrinth.height as i64 {
                let neighbor = Position { x: nx as u32, y: ny as u32 };
                assert(side_cell(lab, c, t as int) == Some(neighbor));
                let k = cell_key(neighbor.x, neighbor.y);
                if !walls.contains(&k) && !visited.contains(&k) {
                    proof {
                        assert(step(lab, current, neighbor));
                        assert((seq![current] + queue@)[0] == current);
                        lemma_visit(lab, visited@, came_from@, d, seq![current] + queue@, lo, current, neighbor);
                        assert(move_rank(current, neighbor) == t as int);
                        lemma_visit_order(
                            lab,
                            visited@,
                            came_from@,
                            d,
                            tp,
                            seq![current] + queue@,
                            lo,
                            current,
                            neighbor,
                            t as int,
                        );
                        assert(!vi.contains(k as int));
                    }
                    let ghost qb = queue@;
                    visited.insert(k);
                    came_from.insert(k, current);
                    queue.push_back(neighbor);
                    proof {
                        tp = tp.insert(k, tp[key_of(current)].push(neighbor));
                        d = d.insert(k, lo + 1);
                        vi = vi.insert(k as int);
                        assert(seq![current] + queue@ =~= (seq![current] + qb).push(neighbor));
                    }
                }
            }
            proof {
                assert forall|i: int|
                    0 <= i < (seq![current] + queue@).len() && d[key_of(
                        #[trigger] (seq![current] + queue@)[i],
                    )] == lo + 1 implies earlier_walk(
                    tp[key_of((seq![current] + queue@)[i])].drop_last(),
                    tp[key_of(current)],
                ) || (tp[key_of((seq![current] + queue@)[i])].drop_last() == tp[key_of(current)]
                    && move_rank(current, (seq![current] + queue@)[i]) < t + 1) by {}
            }
            t = t + 1;
        }
        proof {
            assert((seq![current] + queue@)[0] == current);
            lemma_sides_closed(lab, visited@, current);
            lemma_expanded(lab, visited@, came_from@, d, seq![current] + queue@, lo, current);
            lemma_expanded_order(lab, visited@, came_from@, d, tp, seq![current] + queue@, lo, current);
            assert((seq![current] + queue@).drop_first() =~= queue@);
            vstd::set_lib::lemma_len_subset(vi, all_keys);
            assert(2 * (0x1_0000_0000_0000_0000 - vi.len()) + queue@.len() < m0);
        }
    }
}

/// Law of shortest routes: a shortest route never passes the same cell
/// twice.
pub proof fn lemma_shortest_route_simple(lab: Labyrinth, path: Seq<Position>, i: int, j: int)
    requires
        shortest_route(lab, path),
        0 <= i < j < path.len(),
    ensures
        path[i] != path[j],
{
    if path[i] == path[j] {
        let w = path.take(i + 1) + path.skip(j + 1);
        assert(w.len() == path.len() - (j - i));
        assert(w[0] == lab.start);
        assert(w[w.len() - 1] == lab.goal) by {
            if j == path.len() - 1 {
                assert(w[w.len() - 1] == path[i]);
            } else {
                assert(w[w.len() - 1] == path[path.len() - 1]);
            }
        }
        assert forall|k: int| 0 <= k < w.len() - 1 implies #[trigger] links(lab, w, k) by {
            if k < i {
                assert(links(lab, path, k));
                assert(w[k] == path[k] && w[k + 1] == path[k + 1]);
            } else if k == i {
                assert(links(lab, path, j));
                assert(w[k] == path[j] && w[k + 1] == path[j + 1]);
            } else {
                assert(links(lab, path, k + j - i));
                assert(w[k] == path[k + j - i] && w[k + 1] == path[k + 1 + j - i]);
            }
        }
        assert(walk_to(lab, w, lab.goal));
    }
}

/// Law of shortest routes: when the start is the goal, the route is the
/// start alone.
pub proof fn lemma_shortest_route_at_goal(lab: Labyrinth, path: Seq<Position>)
    requires
        shortest_route(lab, path),
        lab.start == lab.goal,
    ensures
        path == seq![lab.start],
{
    let w = seq![lab.start];
    assert(walk_to(lab, w, lab.goal));
    assert(path =~= w);
}

/// What the picture of a labyrinth shows at one cell.
#[derive(Debug, Clone, Copy, PartialEq, Eq)]
pub enum Tile {
    Start,
    Goal,
    Route,
    Wall,
    Open,
}

/// The tile at `p`: start, goal, a cell of the route, a wall, or open
/// ground, in that order of precedence.
pub open spec fn tile_at(lab: Labyrinth, route: Seq<Position>, p: Position) -> Tile {
    if p == lab.start {
        Tile::Start
    } else if p == lab.goal {
        Tile::Goal
    } else if route.contains(p) {
        Tile::Route
    } else if wall_at(lab, p) {
        Tile::Wall
    } else {
        Tile::Open
    }
}

/// The picture of a labyrinth with a route drawn on it: one row per `y`,
/// one tile per `x`.
pub open spec fn picture(lab: Labyrinth, route: Seq<Position>) -> Seq<Seq<Tile>> {
    Seq::new(
        lab.height as nat,
        |y: int|
            Seq::new(lab.width as nat, |x: int| tile_at(lab, route, Position { x: x as u32, y: y as u32 })),
    )
}

/// The numbers of the cells of a route.
fn route_keys(route: &Vec<Position>) -> (keys: HashSet<u64>)
    ensures
        forall|p: Position| #[trigger] keys@.contains(key_of(p)) <==> route@.contains(p),
{
    let mut keys: HashSet<u64> = HashSet::new();
    let mut i: usize = 0;
    while i < route.len()
        invariant
            i <= route.len(),
            forall|p: Position| #[trigger] keys@.contains(key_of(p)) <==> route@.take(i as int).contains(p),
        decreases route.len() - i,
    {
        let p = route[i];
        keys.insert(cell_key(p.x, p.y));
        assert forall|q: Position| #[trigger] keys@.contains(key_of(q)) <==> route@.take(i + 1).contains(q) by {
            lemma_key_injective(q, p);
            let before = route@.take(i as int);
            let after = route@.take(i + 1);
            assert(after =~= before.push(p));
            if after.contains(q) {
                let t = choose|t: int| 0 <= t < after.len() && after[t] == q;
                if t < i {
                    assert(before[t] == q);
                }
            }
            if before.contains(q) {
                let t = choose|t: int| 0 <= t < before.len() && before[t] == q;
                assert(after[t] == q);
            }
            if q == p {
                assert(after[i as int] == q);
            }
        }
        i = i + 1;
    }
    assert(route@.take(route.len() as int) =~= route@);
    keys
}

/// The picture of the labyrinth with the route drawn on it, row by row: the
/// start, the goal, the route's cells, the cells described as walls, and
/// open ground.
pub fn maze_tiles(labyrinth: &Labyrinth, route: &Vec<Position>) -> (rows: Vec<Vec<Tile>>)
    ensures
        rows@.map_values(|row: Vec<Tile>| row@) == picture(*labyrinth, route@),
{
    let walls = wall_keys(labyrinth);
    let on_route = route_keys(route);
    let start = labyrinth.start;
    let goal = labyrinth.goal;
    let mut rows: Vec<Vec<Tile>> = Vec::new();
    let mut y: u32 = 0;
    while y < labyrinth.height
        invariant
            y <= labyrinth.height,
            start == labyrinth.start,
            goal == labyrinth.goal,
            forall|p: Position| #[trigger] walls@.contains(key_of(p)) <==> wall_at(*labyrinth, p),
            forall|p: Position| #[trigger] on_route@.contains(key_of(p)) <==> route@.contains(p),
            rows@.len() == y,
            forall|j: int|
                0 <= j < y ==> #[trigger] rows@[j]@ == picture(*labyrinth, route@)[j],
        decreases labyrinth.height - y,
    {
        let mut row: Vec<Tile> = Vec::new();
        let mut x: u32 = 0;
        while x < labyrinth.width
            invariant
                x <= labyrinth.width,
                y < labyrinth.height,
                start == labyrinth.start,
                goal == labyrinth.goal,
                forall|p: Position| #[trigger] walls@.contains(key_of(p)) <==> wall_at(*labyrinth, p),
                forall|p: Position| #[trigger] on_route@.contains(key_of(p)) <==> route@.contains(p),
                row@ =~= Seq::new(
                    x as nat,
                    |i: int| tile_at(*labyrinth, route@, Position { x: i as u32, y: y }),
                ),
            decreases labyrinth.width - x,
        {
            let pos = Position { x, y };
            let k = cell_key(x, y);
            let t = if pos.x == start.x && pos.y == start.y {
                Tile::Start
            } else if pos.x == goal.x && pos.y == goal.y {
                Tile::Goal
            } else if on_route.contains(&k) {
                Tile::Route
            } else if walls.contains(&k) {
                Tile::Wall
            } else {
                Tile::Open
            };
            assert(t == tile_at(*labyrinth, route@, pos));
            row.push(t);
            x = x + 1;
        }
        assert(row@ =~= picture(*labyrinth, route@)[y as int]);
        rows.push(row);
        y = y + 1;
    }
    assert(rows@.map_values(|row: Vec<Tile>| row@) =~= picture(*labyrinth, route@));
    rows
}

} // verus!
