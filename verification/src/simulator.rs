use crate::protocol::{GameState, Hero, Projectile};
use crate::utils::{lemma_move_targets_complete, lemma_move_targets_distinct, lemma_move_targets_valid, can_stand_at, cells, clear_line, dist, get_bresenham_line, line, standable, grid_height, grid_ok, grid_width, has_line_of_sight, move_targets, valid_moves};
use std::collections::HashMap;
use vstd::prelude::*;

verus! {

broadcast use vstd::std_specs::hash::group_hash_axioms;

/// A move that a hero can make in the simulation.
#[derive(Debug, Clone, Copy, PartialEq, Eq, Hash)]
pub enum Action {
    Wait,
    Move { x: i32, y: i32 },
    Shoot { x: i32, y: i32 },
}

/// A hero in the simulation.
#[derive(Debug, Clone)]
pub struct SimHero {
    pub id: i32,
    pub owner_id: i32,
    pub x: i32,
    pub y: i32,
    pub hp: i32,
    pub cooldown: i32,
}

/// A projectile in flight in the simulation; `steps_taken` is how far along
/// its line of fire it has flown.
#[derive(Debug, Clone)]
pub struct SimProjectile {
    pub owner_id: i32,
    pub origin_x: i32,
    pub origin_y: i32,
    pub aim_x: i32,
    pub aim_y: i32,
    pub ttl: i32,
    pub steps_taken: usize,
}

/// The simulated arena: both teams, the projectiles in flight, and the
/// collision grid (1 marks a wall cell), indexed `[x][y]`.
#[derive(Debug, Clone)]
pub struct SimState {
    pub my_player_id: i32,
    pub my_heroes: Vec<SimHero>,
    pub enemy_heroes: Vec<SimHero>,
    pub projectiles: Vec<SimProjectile>,
    pub grid: Vec<Vec<i32>>,
    pub map_width: i32,
    pub map_height: i32,
}

/// The simulated copy of a reported hero.
pub open spec fn sim_hero_of(h: Hero) -> SimHero {
    SimHero { id: h.id, owner_id: h.owner_id, x: h.x, y: h.y, hp: h.hp, cooldown: h.cooldown }
}

/// The simulated copies of the reported heroes that belong to `owner`
/// (`mine`) or to anyone else (`!mine`), in the reported order.
pub open spec fn team_of(hs: Seq<Hero>, owner: i32, mine: bool) -> Seq<SimHero>
    decreases hs.len(),
{
    if hs.len() == 0 {
        Seq::empty()
    } else {
        let prev = team_of(hs.drop_last(), owner, mine);
        if (hs.last().owner_id == owner) == mine {
            prev.push(sim_hero_of(hs.last()))
        } else {
            prev
        }
    }
}

/// The simulated copy of a reported projectile: it aims at its reported
/// position and counts its flight from there.
pub open spec fn sim_projectile_of(p: Projectile) -> SimProjectile {
    SimProjectile {
        owner_id: p.owner_id,
        origin_x: p.origin_x,
        origin_y: p.origin_y,
        aim_x: p.x,
        aim_y: p.y,
        ttl: p.ttl,
        steps_taken: 0,
    }
}

/// The grid cells of a state.
pub open spec fn grid_of(s: SimState) -> Seq<Seq<i32>> {
    cells(&s.grid)
}

/// The playing field of `width` x `height` cells lies inside the grid, so
/// that every cell of it can be looked up.
pub open spec fn field_in_grid(g: Seq<Seq<i32>>, width: int, height: int) -> bool {
    width <= 0 || height <= 0 || (width <= grid_width(g) && height <= grid_height(g))
}

impl SimState {
    /// A state the simulator can run: a well-shaped grid that covers the
    /// playing field.
    pub open spec fn wf(&self) -> bool {
        &&& grid_ok(cells(&self.grid))
        &&& field_in_grid(cells(&self.grid), self.map_width as int, self.map_height as int)
    }
}

/// Copies a grid column by column.
fn copy_grid(grid: &Vec<Vec<i32>>) -> (r: Vec<Vec<i32>>)
    ensures
        cells(&r) == cells(grid),
{
    let mut r: Vec<Vec<i32>> = Vec::new();
    let mut i: usize = 0;
    while i < grid.len()
        invariant
            i <= grid.len(),
            r@.len() == i,
            forall|k: int| 0 <= k < i ==> #[trigger] r@[k]@ == grid@[k]@,
        decreases grid.len() - i,
    {
        let col = grid[i].clone();
        assert(col@ =~= grid@[i as int]@);
        r.push(col);
        i = i + 1;
    }
    assert(cells(&r) =~= cells(grid));
    r
}

/// The simulated copy of one reported hero.
fn sim_hero(h: &Hero) -> (r: SimHero)
    ensures
        r == sim_hero_of(*h),
{
    SimHero { id: h.id, owner_id: h.owner_id, x: h.x, y: h.y, hp: h.hp, cooldown: h.cooldown }
}

impl SimState {
    /// The simulated state built from the state the server reported: the
    /// heroes of `my_player_id` and the others in two teams, in the reported
    /// order, the projectiles in flight aiming at their reported positions,
    /// and a copy of the collision grid.
    pub fn from_state(
        state: &GameState,
        grid: &Vec<Vec<i32>>,
        my_player_id: i32,
        width: i32,
        height: i32,
    ) -> (r: Self)
        ensures
            r.my_player_id == my_player_id,
            r.my_heroes@ == team_of(state.heroes@, my_player_id, true),
            r.enemy_heroes@ == team_of(state.heroes@, my_player_id, false),
            r.projectiles@ == state.projectiles@.map_values(|p: Projectile| sim_projectile_of(p)),
            r.projectiles@.len() == state.projectiles@.len(),
            forall|i: int|
                0 <= i < r.projectiles@.len() ==> {
                    let q = #[trigger] r.projectiles@[i];
                    let p = state.projectiles@[i];
                    &&& q.owner_id == p.owner_id
                    &&& q.origin_x == p.origin_x
                    &&& q.origin_y == p.origin_y
                    &&& q.aim_x == p.x
                    &&& q.aim_y == p.y
                    &&& q.ttl == p.ttl
                    &&& q.steps_taken == 0
                },
            cells(&r.grid) == cells(grid),
            r.map_width == width,
            r.map_height == height,
    {
        let mut my_heroes: Vec<SimHero> = Vec::new();
        let mut enemy_heroes: Vec<SimHero> = Vec::new();
        let mut projectiles: Vec<SimProjectile> = Vec::new();
        let mut i: usize = 0;
        while i < state.heroes.len()
            invariant
                i <= state.heroes.len(),
                my_heroes@ == team_of(state.heroes@.take(i as int), my_player_id, true),
                enemy_heroes@ == team_of(state.heroes@.take(i as int), my_player_id, false),
            decreases state.heroes.len() - i,
        {
            assert(state.heroes@.take(i + 1).drop_last() =~= state.heroes@.take(i as int));
            let h = &state.heroes[i];
            if h.owner_id == my_player_id {
                my_heroes.push(sim_hero(h));
            } else {
                enemy_heroes.push(sim_hero(h));
            }
            i = i + 1;
        }
        assert(state.heroes@.take(state.heroes.len() as int) =~= state.heroes@);
        let mut j: usize = 0;
        while j < state.projectiles.len()
            invariant
                j <= state.projectiles.len(),
                projectiles@ =~= state.projectiles@.take(j as int).map_values(
                    |p: Projectile| sim_projectile_of(p),
                ),
            decreases state.projectiles.len() - j,
        {
            let p = &state.projectiles[j];
            projectiles.push(
                SimProjectile {
                    owner_id: p.owner_id,
                    origin_x: p.origin_x,
                    origin_y: p.origin_y,
                    aim_x: p.x,
                    aim_y: p.y,
                    ttl: p.ttl,
                    steps_taken: 0,
                },
            );
            j = j + 1;
        }
        assert(state.projectiles@.take(state.projectiles.len() as int) =~= state.projectiles@);
        SimState {
            my_player_id,
            my_heroes,
            enemy_heroes,
            projectiles,
            grid: copy_grid(grid),
            map_width: width,
            map_height: height,
        }
    }
}

/// The shots a hero at full readiness has: one at each living target to
/// which it has a clear line, in the order of the targets.
pub open spec fn shots_at(g: Seq<Seq<i32>>, hero: SimHero, targets: Seq<SimHero>) -> Seq<Action>
    decreases targets.len(),
{
    if targets.len() == 0 {
        Seq::empty()
    } else {
        let prev = shots_at(g, hero, targets.drop_last());
        let t = targets.last();
        if t.hp > 0 && clear_line(g, hero.x, hero.y, t.x, t.y) {
            prev.push(Action::Shoot { x: t.x, y: t.y })
        } else {
            prev
        }
    }
}

/// The move actions towards the given destinations.
pub open spec fn moves_to(ps: Seq<(i32, i32)>) -> Seq<Action> {
    ps.map_values(|p: (i32, i32)| Action::Move { x: p.0, y: p.1 })
}

/// The targets of a hero: the other team.
pub open spec fn opponents(s: SimState, hero: SimHero) -> Seq<SimHero> {
    if hero.owner_id == s.my_player_id {
        s.enemy_heroes@
    } else {
        s.my_heroes@
    }
}

/// What a hero can do now: wait; if alive, also each three-cell move to a
/// place where it can stand, and, if its weapon is ready, a shot at each
/// living opponent in its line of sight.
pub open spec fn possible_actions(s: SimState, hero: SimHero) -> Seq<Action> {
    if hero.hp <= 0 {
        seq![Action::Wait]
    } else {
        let moves = moves_to(move_targets(grid_of(s), hero.x as int, hero.y as int));
        let shots = if hero.cooldown == 0 {
            shots_at(grid_of(s), hero, opponents(s, hero))
        } else {
            Seq::empty()
        };
        seq![Action::Wait] + moves + shots
    }
}

impl SimState {
    /// The actions open to `hero` now: `Wait` first; then, for a living hero,
    /// the moves of three cells (in the fixed order of the eight directions)
    /// to places where it can stand, and, when its cooldown is 0, a shot at
    /// every living opponent in its line of sight, in the opponents' order.
    pub fn get_possible_actions(&self, hero: &SimHero) -> (r: Vec<Action>)
        requires
            grid_ok(cells(&self.grid)),
        ensures
            r@ == possible_actions(*self, *hero),
    {
        let mut actions: Vec<Action> = Vec::new();
        actions.push(Action::Wait);
        if hero.hp <= 0 {
            assert(actions@ =~= seq![Action::Wait]);
            return actions;
        }
        let ghost g = cells(&self.grid);
        let targets = valid_moves(&self.grid, hero.x, hero.y);
        let mut k: usize = 0;
        while k < targets.len()
            invariant
                k <= targets.len(),
                actions@ =~= seq![Action::Wait] + moves_to(targets@.take(k as int)),
            decreases targets.len() - k,
        {
            let p = targets[k];
            actions.push(Action::Move { x: p.0, y: p.1 });
            assert(targets@.take(k + 1) =~= targets@.take(k as int).push(p));
            k = k + 1;
        }
        assert(targets@.take(targets.len() as int) =~= targets@);
        let ghost before_shots = actions@;
        if hero.cooldown == 0 {
            let opp = if hero.owner_id == self.my_player_id {
                &self.enemy_heroes
            } else {
                &self.my_heroes
            };
            let mut t: usize = 0;
            while t < opp.len()
                invariant
                    grid_ok(cells(&self.grid)),
                    t <= opp.len(),
                    actions@ =~= before_shots + shots_at(cells(&self.grid), *hero, opp@.take(t as int)),
                decreases opp.len() - t,
            {
                assert(opp@.take(t + 1).drop_last() =~= opp@.take(t as int));
                let e = &opp[t];
                if e.hp > 0 && has_line_of_sight(&self.grid, hero.x, hero.y, e.x, e.y) {
                    actions.push(Action::Shoot { x: e.x, y: e.y });
                }
                t = t + 1;
            }
            assert(opp@.take(opp.len() as int) =~= opp@);
        } else {
            assert(actions@ =~= before_shots + Seq::<Action>::empty());
        }
        actions
    }
}

/// The action a hero takes this turn: its entry in its own side's action map
/// (the first map for heroes of `my_id`, the second for the others), and
/// `Wait` when it has none.
pub open spec fn chosen_action(
    h: SimHero,
    my_id: i32,
    mine: Map<i32, Action>,
    theirs: Map<i32, Action>,
) -> Action {
    let m = if h.owner_id == my_id {
        mine
    } else {
        theirs
    };
    if m.contains_key(h.id) {
        m[h.id]
    } else {
        Action::Wait
    }
}

/// The sign of an integer: -1, 0 or 1.
pub open spec fn sign(v: int) -> int {
    if v > 0 {
        1
    } else if v < 0 {
        -1
    } else {
        0
    }
}

/// A hero after the movement phase. A living hero told to move to a point
/// outside its own 3x3 block steps three cells towards it on each axis where
/// the point differs, provided the new centre lies strictly inside the
/// borders of the `width` x `height` field and the hero can stand there;
/// otherwise it stays.
pub open spec fn after_move(h: SimHero, a: Action, g: Seq<Seq<i32>>, width: int, height: int) -> SimHero {
    if h.hp <= 0 {
        h
    } else {
        match a {
            Action::Move { x: tx, y: ty } => {
                if dist(tx as int, h.x as int) <= 1 && dist(ty as int, h.y as int) <= 1 {
                    h
                } else {
                    let nx = h.x + 3 * sign(tx - h.x);
                    let ny = h.y + 3 * sign(ty - h.y);
                    if 1 <= nx < width - 1 && 1 <= ny < height - 1 && standable(g, nx, ny) {
                        SimHero { x: nx as i32, y: ny as i32, ..h }
                    } else {
                        h
                    }
                }
            },
            _ => h,
        }
    }
}

/// A hero after the shooting phase: a living hero that shoots with its
/// cooldown at 0 reloads (cooldown 4); otherwise a living hero's positive
/// cooldown goes down by one.
pub open spec fn after_fire(h: SimHero, a: Action) -> SimHero {
    if h.hp <= 0 {
        h
    } else if a is Shoot && h.cooldown == 0 {
        SimHero { cooldown: 4, ..h }
    } else if h.cooldown > 0 {
        SimHero { cooldown: (h.cooldown - 1) as i32, ..h }
    } else {
        h
    }
}

/// The projectile a hero fires this turn, if any: a living hero with its
/// cooldown at 0 that shoots fires one from its position towards the aimed
/// point, with a time to live of 4.
pub open spec fn shot_fired(h: SimHero, a: Action) -> Seq<SimProjectile> {
    if h.hp > 0 && h.cooldown == 0 {
        match a {
            Action::Shoot { x: tx, y: ty } => seq![
                SimProjectile {
                    owner_id: h.owner_id,
                    origin_x: h.x,
                    origin_y: h.y,
                    aim_x: tx,
                    aim_y: ty,
                    ttl: 4,
                    steps_taken: 0,
                },
            ],
            _ => Seq::empty(),
        }
    } else {
        Seq::empty()
    }
}

/// A team after the movement phase.
pub open spec fn team_moved(
    hs: Seq<SimHero>,
    my_id: i32,
    mine: Map<i32, Action>,
    theirs: Map<i32, Action>,
    g: Seq<Seq<i32>>,
    width: int,
    height: int,
) -> Seq<SimHero> {
    Seq::new(
        hs.len(),
        |i: int| after_move(hs[i], chosen_action(hs[i], my_id, mine, theirs), g, width, height),
    )
}

/// A team after the shooting phase.
pub open spec fn team_fired(
    hs: Seq<SimHero>,
    my_id: i32,
    mine: Map<i32, Action>,
    theirs: Map<i32, Action>,
) -> Seq<SimHero> {
    Seq::new(hs.len(), |i: int| after_fire(hs[i], chosen_action(hs[i], my_id, mine, theirs)))
}

/// The projectiles a team fires this turn, in the order of its heroes.
pub open spec fn volley(
    hs: Seq<SimHero>,
    my_id: i32,
    mine: Map<i32, Action>,
    theirs: Map<i32, Action>,
) -> Seq<SimProjectile>
    decreases hs.len(),
{
    if hs.len() == 0 {
        Seq::empty()
    } else {
        volley(hs.drop_last(), my_id, mine, theirs) + shot_fired(
            hs.last(),
            chosen_action(hs.last(), my_id, mine, theirs),
        )
    }
}

/// What stops a projectile on its way this turn.
pub enum Impact {
    /// Nothing: it is still in flight.
    Clear,
    /// A wall, or the edge of the field.
    Blocked,
    /// The hero at this index of the target team.
    Struck(usize),
    /// The ground at the end of its line.
    Landed,
}

/// A living hero whose 3x3 block holds the cell `(px, py)`.
pub open spec fn hittable(h: SimHero, px: int, py: int) -> bool {
    h.hp > 0 && dist(h.x as int, px) <= 1 && dist(h.y as int, py) <= 1
}

/// Among the first `k` targets, the hittable one with the lowest id (the
/// earliest of them on a tie).
pub open spec fn first_hit_upto(ts: Seq<SimHero>, px: int, py: int, k: nat) -> Option<usize>
    decreases k,
{
    if k == 0 {
        None
    } else {
        let prev = first_hit_upto(ts, px, py, (k - 1) as nat);
        let t = ts[k - 1];
        if hittable(t, px, py) && (prev is None || t.id < ts[prev->0 as int].id) {
            Some((k - 1) as usize)
        } else {
            prev
        }
    }
}

/// The target hit at cell `(px, py)`: the hittable one with the lowest id.
pub open spec fn first_hit(ts: Seq<SimHero>, px: int, py: int) -> Option<usize> {
    first_hit_upto(ts, px, py, ts.len())
}

/// The cell `(px, py)` lies off the `width` x `height` field or is a wall.
pub open spec fn off_field_or_wall(g: Seq<Seq<i32>>, width: int, height: int, px: int, py: int) -> bool {
    px < 0 || px >= width || py < 0 || py >= height || g[px][py] == 1
}

/// What a projectile meets flying over the points `step..=end` of its line
/// of fire, point by point: the edge or a wall, a target, or the end of the
/// line.
pub open spec fn scan(
    path: Seq<(i32, i32)>,
    step: int,
    end: int,
    ts: Seq<SimHero>,
    g: Seq<Seq<i32>>,
    width: int,
    height: int,
) -> Impact
    decreases end + 1 - step,
{
    if step > end {
        Impact::Clear
    } else {
        let pt = path[step];
        if off_field_or_wall(g, width, height, pt.0 as int, pt.1 as int) {
            Impact::Blocked
        } else {
            match first_hit(ts, pt.0 as int, pt.1 as int) {
                Some(i) => Impact::Struck(i),
                None => {
                    if step == path.len() - 1 {
                        Impact::Landed
                    } else {
                        scan(path, step + 1, end, ts, g, width, height)
                    }
                },
            }
        }
    }
}

/// The last point of its line a projectile can reach this turn: six points
/// further than it has flown, at most the end of the line.
pub open spec fn flight_end(p: SimProjectile) -> int {
    vstd::math::min(
        p.steps_taken + 6,
        line(p.origin_x, p.origin_y, p.aim_x, p.aim_y).len() - 1,
    )
}

/// A hero hit by a projectile: 1000 hit points less.
pub open spec fn wounded(h: SimHero) -> SimHero {
    SimHero { hp: (h.hp - 1000) as i32, ..h }
}

/// One projectile's flight this turn against the two teams: the projectile
/// if it is still in flight afterwards, and both teams afterwards. A
/// projectile of `my_id` flies against the enemy team, any other against
/// mine. A projectile that meets nothing counts the points it has flown and
/// loses one unit of its time to live; it falls when that goes below 0.
pub open spec fn fly(
    p: SimProjectile,
    my_id: i32,
    g: Seq<Seq<i32>>,
    width: int,
    height: int,
    mine: Seq<SimHero>,
    theirs: Seq<SimHero>,
) -> (Option<SimProjectile>, Seq<SimHero>, Seq<SimHero>) {
    let path = line(p.origin_x, p.origin_y, p.aim_x, p.aim_y);
    let end = flight_end(p);
    let at_theirs = p.owner_id == my_id;
    let ts = if at_theirs {
        theirs
    } else {
        mine
    };
    match scan(path, p.steps_taken as int, end, ts, g, width, height) {
        Impact::Struck(i) => {
            let hit = ts.update(i as int, wounded(ts[i as int]));
            if at_theirs {
                (None, mine, hit)
            } else {
                (None, hit, theirs)
            }
        },
        Impact::Clear => {
            if p.ttl - 1 < 0 {
                (None, mine, theirs)
            } else {
                let flown = if p.steps_taken <= end {
                    end
                } else {
                    p.steps_taken as int
                };
                (Some(SimProjectile { ttl: (p.ttl - 1) as i32, steps_taken: flown as usize, ..p }), mine, theirs)
            }
        },
        _ => (None, mine, theirs),
    }
}

/// All projectiles' flights this turn, one after the other in their order:
/// the projectiles still in flight (in order), and both teams afterwards.
pub open spec fn resolve(
    ps: Seq<SimProjectile>,
    my_id: i32,
    g: Seq<Seq<i32>>,
    width: int,
    height: int,
    mine: Seq<SimHero>,
    theirs: Seq<SimHero>,
) -> (Seq<SimProjectile>, Seq<SimHero>, Seq<SimHero>)
    decreases ps.len(),
{
    if ps.len() == 0 {
        (Seq::empty(), mine, theirs)
    } else {
        let r = resolve(ps.drop_last(), my_id, g, width, height, mine, theirs);
        let f = fly(ps.last(), my_id, g, width, height, r.1, r.2);
        let kept = match f.0 {
            Some(q) => r.0.push(q),
            None => r.0,
        };
        (kept, f.1, f.2)
    }
}

/// One whole turn from state `s`: movement, then shooting, then the flight of
/// every projectile (those already in flight, then those my team fired, then
/// those the enemy fired). The result is (projectiles still in flight, my
/// team, enemy team).
pub open spec fn turn(s: SimState, mine: Map<i32, Action>, theirs: Map<i32, Action>) -> (
    Seq<SimProjectile>,
    Seq<SimHero>,
    Seq<SimHero>,
) {
    let g = grid_of(s);
    let id = s.my_player_id;
    let w = s.map_width as int;
    let h = s.map_height as int;
    let m1 = team_moved(s.my_heroes@, id, mine, theirs, g, w, h);
    let e1 = team_moved(s.enemy_heroes@, id, mine, theirs, g, w, h);
    resolve(
        turn_projectiles(s, mine, theirs),
        id,
        g,
        w,
        h,
        team_fired(m1, id, mine, theirs),
        team_fired(e1, id, mine, theirs),
    )
}

/// The projectiles that fly in a turn from state `s`, in the order in which
/// they fly: those already in flight, then those my team fires, then those
/// the enemy fires.
pub open spec fn turn_projectiles(s: SimState, mine: Map<i32, Action>, theirs: Map<i32, Action>) -> Seq<
    SimProjectile,
> {
    let g = grid_of(s);
    let id = s.my_player_id;
    let w = s.map_width as int;
    let h = s.map_height as int;
    let m1 = team_moved(s.my_heroes@, id, mine, theirs, g, w, h);
    let e1 = team_moved(s.enemy_heroes@, id, mine, theirs, g, w, h);
    s.projectiles@ + volley(m1, id, mine, theirs) + volley(e1, id, mine, theirs)
}

/// The action a hero takes this turn, looked up in its side's map.
fn lookup_action(
    h: &SimHero,
    my_id: i32,
    mine: &HashMap<i32, Action>,
    theirs: &HashMap<i32, Action>,
) -> (a: Action)
    ensures
        a == chosen_action(*h, my_id, mine@, theirs@),
{
    let m = if h.owner_id == my_id {
        mine
    } else {
        theirs
    };
    match m.get(&h.id) {
        Some(a) => *a,
        None => Action::Wait,
    }
}

/// A hero after the movement phase.
fn move_hero(h: &SimHero, a: Action, grid: &Vec<Vec<i32>>, width: i32, height: i32) -> (r: SimHero)
    requires
        grid_ok(cells(grid)),
    ensures
        r == after_move(*h, a, cells(grid), width as int, height as int),
{
    let same = SimHero { id: h.id, owner_id: h.owner_id, x: h.x, y: h.y, hp: h.hp, cooldown: h.cooldown };
    if h.hp <= 0 {
        return same;
    }
    match a {
        Action::Move { x: tx, y: ty } => {
            let ddx: i64 = tx as i64 - h.x as i64;
            let ddy: i64 = ty as i64 - h.y as i64;
            if -1 <= ddx && ddx <= 1 && -1 <= ddy && ddy <= 1 {
                return same;
            }
            let sx: i64 = if ddx > 0 {
                1
            } else if ddx < 0 {
                -1
            } else {
                0
            };
            let sy: i64 = if ddy > 0 {
                1
            } else if ddy < 0 {
                -1
            } else {
                0
            };
            let nx: i64 = h.x as i64 + 3 * sx;
            let ny: i64 = h.y as i64 + 3 * sy;
            if nx >= 1 && nx < width as i64 - 1 && ny >= 1 && ny < height as i64 - 1 {
                if can_stand_at(grid, nx as i32, ny as i32) {
                    return SimHero {
                        id: h.id,
                        owner_id: h.owner_id,
                        x: nx as i32,
                        y: ny as i32,
                        hp: h.hp,
                        cooldown: h.cooldown,
                    };
                }
            }
            same
        },
        _ => same,
    }
}

/// A hero after the shooting phase, and the projectile it fires, if any.
fn fire_hero(h: &SimHero, a: Action) -> (r: (SimHero, Option<SimProjectile>))
    ensures
        r.0 == after_fire(*h, a),
        shot_fired(*h, a) == (match r.1 {
            Some(p) => seq![p],
            None => Seq::<SimProjectile>::empty(),
        }),
{
    let same = SimHero { id: h.id, owner_id: h.owner_id, x: h.x, y: h.y, hp: h.hp, cooldown: h.cooldown };
    if h.hp <= 0 {
        return (same, None);
    }
    if h.cooldown == 0 {
        if let Action::Shoot { x: tx, y: ty } = a {
            let p = SimProjectile {
                owner_id: h.owner_id,
                origin_x: h.x,
                origin_y: h.y,
                aim_x: tx,
                aim_y: ty,
                ttl: 4,
                steps_taken: 0,
            };
            return (SimHero { cooldown: 4, ..same }, Some(p));
        }
    }
    if h.cooldown > 0 {
        (SimHero { cooldown: h.cooldown - 1, ..same }, None)
    } else {
        (same, None)
    }
}

/// A team after the movement phase.
fn move_team(
    hs: &Vec<SimHero>,
    my_id: i32,
    mine: &HashMap<i32, Action>,
    theirs: &HashMap<i32, Action>,
    grid: &Vec<Vec<i32>>,
    width: i32,
    height: i32,
) -> (r: Vec<SimHero>)
    requires
        grid_ok(cells(grid)),
    ensures
        r@ == team_moved(hs@, my_id, mine@, theirs@, cells(grid), width as int, height as int),
{
    let mut r: Vec<SimHero> = Vec::new();
    let mut k: usize = 0;
    while k < hs.len()
        invariant
            grid_ok(cells(grid)),
            k <= hs.len(),
            r@ =~= team_moved(hs@.take(k as int), my_id, mine@, theirs@, cells(grid), width as int, height as int),
        decreases hs.len() - k,
    {
        let a = lookup_action(&hs[k], my_id, mine, theirs);
        r.push(move_hero(&hs[k], a, grid, width, height));
        k = k + 1;
    }
    assert(hs@.take(hs.len() as int) =~= hs@);
    r
}

/// A team after the shooting phase; the projectiles it fires are appended to
/// `shots` in the order of its heroes.
fn fire_team(
    hs: &Vec<SimHero>,
    my_id: i32,
    mine: &HashMap<i32, Action>,
    theirs: &HashMap<i32, Action>,
    shots: &mut Vec<SimProjectile>,
) -> (r: Vec<SimHero>)
    ensures
        r@ == team_fired(hs@, my_id, mine@, theirs@),
        final(shots)@ == old(shots)@ + volley(hs@, my_id, mine@, theirs@),
{
    let mut r: Vec<SimHero> = Vec::new();
    let mut k: usize = 0;
    while k < hs.len()
        invariant
            k <= hs.len(),
            r@ =~= team_fired(hs@.take(k as int), my_id, mine@, theirs@),
            shots@ =~= old(shots)@ + volley(hs@.take(k as int), my_id, mine@, theirs@),
        decreases hs.len() - k,
    {
        assert(hs@.take(k + 1).drop_last() =~= hs@.take(k as int));
        let a = lookup_action(&hs[k], my_id, mine, theirs);
        let (h, shot) = fire_hero(&hs[k], a);
        r.push(h);
        match shot {
            Some(p) => {
                shots.push(p);
            },
            None => {},
        }
        k = k + 1;
    }
    assert(hs@.take(hs.len() as int) =~= hs@);
    r
}

/// The hittable target at `(px, py)` with the lowest id, the earliest of them
/// on a tie.
fn first_hit_index(ts: &Vec<SimHero>, px: i32, py: i32) -> (r: Option<usize>)
    ensures
        r == first_hit(ts@, px as int, py as int),
        r matches Some(i) ==> i < ts@.len() && hittable(ts@[i as int], px as int, py as int),
{
    let mut best: Option<usize> = None;
    let mut k: usize = 0;
    while k < ts.len()
        invariant
            k <= ts.len(),
            best == first_hit_upto(ts@, px as int, py as int, k as nat),
            best matches Some(i) ==> i < k && hittable(ts@[i as int], px as int, py as int),
        decreases ts.len() - k,
    {
        let t = &ts[k];
        let near = t.hp > 0 && t.x as i64 - px as i64 <= 1 && px as i64 - t.x as i64 <= 1
            && t.y as i64 - py as i64 <= 1 && py as i64 - t.y as i64 <= 1;
        if near {
            match best {
                None => {
                    best = Some(k);
                },
                Some(b) => {
                    if t.id < ts[b].id {
                        best = Some(k);
                    }
                },
            }
        }
        k = k + 1;
    }
    best
}

/// What a projectile meets on the points `start..=end` of its line of fire.
fn scan_path(
    path: &Vec<(i32, i32)>,
    start: usize,
    end: usize,
    ts: &Vec<SimHero>,
    grid: &Vec<Vec<i32>>,
    width: i32,
    height: i32,
) -> (r: Impact)
    requires
        end < path@.len(),
        grid_ok(cells(grid)),
        field_in_grid(cells(grid), width as int, height as int),
    ensures
        r == scan(path@, start as int, end as int, ts@, cells(grid), width as int, height as int),
        r matches Impact::Struck(i) ==> i < ts@.len() && ts@[i as int].hp > 0,
{
    let ghost g = cells(grid);
    if start > end {
        return Impact::Clear;
    }
    let mut step: usize = start;
    loop
        invariant
            g == cells(grid),
            grid_ok(g),
            field_in_grid(g, width as int, height as int),
            end < path@.len(),
            start <= step <= end,
            scan(path@, start as int, end as int, ts@, g, width as int, height as int) == scan(
                path@,
                step as int,
                end as int,
                ts@,
                g,
                width as int,
                height as int,
            ),
        decreases end - step,
    {
        let (px, py) = path[step];
        if px < 0 || px >= width || py < 0 || py >= height {
            return Impact::Blocked;
        }
        assert(g[px as int] == grid@[px as int]@);
        assert(g[px as int].len() >= grid_height(g));
        if grid[px as usize][py as usize] == 1 {
            return Impact::Blocked;
        }
        match first_hit_index(ts, px, py) {
            Some(i) => {
                return Impact::Struck(i);
            },
            None => {},
        }
        if step == path.len() - 1 {
            return Impact::Landed;
        }
        if step == end {
            return Impact::Clear;
        }
        step = step + 1;
    }
}

/// One projectile's flight this turn against the two teams: the projectile,
/// if it is still in flight afterwards; the hero it strikes loses 1000 hit
/// points.
fn fly_projectile(
    p: &SimProjectile,
    my_id: i32,
    grid: &Vec<Vec<i32>>,
    width: i32,
    height: i32,
    mine: &mut Vec<SimHero>,
    theirs: &mut Vec<SimHero>,
) -> (r: Option<SimProjectile>)
    requires
        grid_ok(cells(grid)),
        field_in_grid(cells(grid), width as int, height as int),
    ensures
        (r, final(mine)@, final(theirs)@) == fly(
            *p,
            my_id,
            cells(grid),
            width as int,
            height as int,
            old(mine)@,
            old(theirs)@,
        ),
{
    let path = get_bresenham_line(p.origin_x, p.origin_y, p.aim_x, p.aim_y);
    let last = path.len() - 1;
    let start = p.steps_taken;
    let end = if start <= last && last - start >= 6 {
        start + 6
    } else {
        last
    };
    assert(end as int == flight_end(*p));
    let at_theirs = p.owner_id == my_id;
    let impact = if at_theirs {
        scan_path(&path, start, end, theirs, grid, width, height)
    } else {
        scan_path(&path, start, end, mine, grid, width, height)
    };
    match impact {
        Impact::Struck(i) => {
            if at_theirs {
                let t = &theirs[i];
                let hurt = SimHero {
                    id: t.id,
                    owner_id: t.owner_id,
                    x: t.x,
                    y: t.y,
                    hp: t.hp - 1000,
                    cooldown: t.cooldown,
                };
                theirs.set(i, hurt);
            } else {
                let t = &mine[i];
                let hurt = SimHero {
                    id: t.id,
                    owner_id: t.owner_id,
                    x: t.x,
                    y: t.y,
                    hp: t.hp - 1000,
                    cooldown: t.cooldown,
                };
                mine.set(i, hurt);
            }
            None
        },
        Impact::Clear => {
            if p.ttl < 1 {
                None
            } else {
                Some(
                    SimProjectile {
                        owner_id: p.owner_id,
                        origin_x: p.origin_x,
                        origin_y: p.origin_y,
                        aim_x: p.aim_x,
                        aim_y: p.aim_y,
                        ttl: p.ttl - 1,
                        steps_taken: if start <= end {
                            end
                        } else {
                            start
                        },
                    },
                )
            }
        },
        _ => None,
    }
}

impl SimState {
    /// Advances the simulation by one turn, as the game server does: every
    /// living hero first moves (three cells towards the point it was told to
    /// move to, where it can stand), then fires or cools down, then every
    /// projectile flies up to six more points along its line of fire and
    /// stops at a wall or the field's edge, at the first hero it meets (the
    /// one with the lowest id when several are there; that hero loses 1000
    /// hit points), or at the end of its line. Heroes without an entry in
    /// their side's action map wait.
    pub fn apply_turn(&mut self, my_actions: &HashMap<i32, Action>, enemy_actions: &HashMap<i32, Action>)
        requires
            old(self).wf(),
        ensures
            final(self).my_player_id == old(self).my_player_id,
            final(self).grid == old(self).grid,
            final(self).map_width == old(self).map_width,
            final(self).map_height == old(self).map_height,
            final(self).wf(),
            (final(self).projectiles@, final(self).my_heroes@, final(self).enemy_heroes@) == turn(
                *old(self),
                my_actions@,
                enemy_actions@,
            ),
    {
        let my_id = self.my_player_id;
        let width = self.map_width;
        let height = self.map_height;
        let ghost g = cells(&self.grid);
        let m1 = move_team(&self.my_heroes, my_id, my_actions, enemy_actions, &self.grid, width, height);
        let e1 = move_team(&self.enemy_heroes, my_id, my_actions, enemy_actions, &self.grid, width, height);
        let mut all: Vec<SimProjectile> = Vec::new();
        std::mem::swap(&mut all, &mut self.projectiles);
        let m2 = fire_team(&m1, my_id, my_actions, enemy_actions, &mut all);
        let e2 = fire_team(&e1, my_id, my_actions, enemy_actions, &mut all);
        let ghost start_mine = m2@;
        let ghost start_theirs = e2@;
        let mut mine = m2;
        let mut theirs = e2;
        let mut kept: Vec<SimProjectile> = Vec::new();
        let mut i: usize = 0;
        while i < all.len()
            invariant
                g == cells(&self.grid),
                grid_ok(g),
                field_in_grid(g, width as int, height as int),
                i <= all.len(),
                (kept@, mine@, theirs@) == resolve(
                    all@.take(i as int),
                    my_id,
                    g,
                    width as int,
                    height as int,
                    start_mine,
                    start_theirs,
                ),
            decreases all.len() - i,
        {
            assert(all@.take(i + 1).drop_last() =~= all@.take(i as int));
            let q = fly_projectile(&all[i], my_id, &self.grid, width, height, &mut mine, &mut theirs);
            match q {
                Some(q) => {
                    kept.push(q);
                },
                None => {},
            }
            i = i + 1;
        }
        assert(all@.take(all.len() as int) =~= all@);
        self.my_heroes = mine;
        self.enemy_heroes = theirs;
        self.projectiles = kept;
    }
}

/// The hero found at a cell is one of the targets, and a hittable one.
proof fn lemma_first_hit_upto(ts: Seq<SimHero>, px: int, py: int, k: nat)
    requires
        k <= ts.len(),
        ts.len() <= usize::MAX,
    ensures
        first_hit_upto(ts, px, py, k) matches Some(i) ==> i < k && hittable(ts[i as int], px, py),
    decreases k,
{
    if k > 0 {
        lemma_first_hit_upto(ts, px, py, (k - 1) as nat);
    }
}

/// The hero a projectile strikes is one of its targets and alive.
proof fn lemma_scan_struck(
    path: Seq<(i32, i32)>,
    step: int,
    end: int,
    ts: Seq<SimHero>,
    g: Seq<Seq<i32>>,
    width: int,
    height: int,
)
    requires
        ts.len() <= usize::MAX,
    ensures
        scan(path, step, end, ts, g, width, height) matches Impact::Struck(i) ==> i < ts.len()
            && ts[i as int].hp > 0,
    decreases end + 1 - step,
{
    if step <= end {
        let pt = path[step];
        lemma_first_hit_upto(ts, pt.0 as int, pt.1 as int, ts.len());
        lemma_scan_struck(path, step + 1, end, ts, g, width, height);
    }
}

/// Between `before` and `after` a team has only taken hits: the same heroes
/// in the same places and states, with no more hit points than before, lost
/// in steps of 1000, and the dead untouched.
pub open spec fn only_wounded(before: Seq<SimHero>, after: Seq<SimHero>) -> bool {
    &&& after.len() == before.len()
    &&& forall|i: int|
        0 <= i < before.len() ==> {
            let b = #[trigger] before[i];
            let a = after[i];
            &&& a.id == b.id
            &&& a.owner_id == b.owner_id
            &&& a.x == b.x
            &&& a.y == b.y
            &&& a.cooldown == b.cooldown
            &&& a.hp <= b.hp
            &&& (b.hp - a.hp) % 1000 == 0
            &&& b.hp <= 0 ==> a == b
        }
}

proof fn lemma_only_wounded_trans(a: Seq<SimHero>, b: Seq<SimHero>, c: Seq<SimHero>)
    requires
        only_wounded(a, b),
        only_wounded(b, c),
    ensures
        only_wounded(a, c),
{
    assert forall|i: int| 0 <= i < a.len() implies {
        let x = #[trigger] a[i];
        let z = c[i];
        &&& z.id == x.id
        &&& z.owner_id == x.owner_id
        &&& z.x == x.x
        &&& z.y == x.y
        &&& z.cooldown == x.cooldown
        &&& z.hp <= x.hp
        &&& (x.hp - z.hp) % 1000 == 0
        &&& x.hp <= 0 ==> z == x
    } by {
        assert(b[i] == b[i]);
        let u = a[i].hp as int;
        let v = b[i].hp as int;
        let w = c[i].hp as int;
        assert((u - w) % 1000 == 0) by (nonlinear_arith)
            requires
                (u - v) % 1000 == 0,
                (v - w) % 1000 == 0,
        ;
    }
}

/// `after` is `before` with at most one living hero wounded once.
pub open spec fn at_most_one_wound(before: Seq<SimHero>, after: Seq<SimHero>) -> bool {
    after == before || exists|i: int|
        0 <= i < before.len() && (#[trigger] before[i]).hp > 0 && after == before.update(
            i,
            wounded(before[i]),
        )
}

/// The hit points a team has lost over its first `n` heroes.
pub open spec fn damage_upto(before: Seq<SimHero>, after: Seq<SimHero>, n: nat) -> int
    decreases n,
{
    if n == 0 {
        0
    } else {
        damage_upto(before, after, (n - 1) as nat) + (before[n - 1].hp - after[n - 1].hp)
    }
}

/// The hit points a team has lost, all heroes together.
pub open spec fn team_damage(before: Seq<SimHero>, after: Seq<SimHero>) -> int {
    damage_upto(before, after, before.len())
}

/// The number of projectiles owned by `my_id` (`mine`) or by anyone else
/// (`!mine`).
pub open spec fn shots_by(ps: Seq<SimProjectile>, my_id: i32, mine: bool) -> nat
    decreases ps.len(),
{
    if ps.len() == 0 {
        0
    } else {
        shots_by(ps.drop_last(), my_id, mine) + (if (ps.last().owner_id == my_id) == mine {
            1nat
        } else {
            0nat
        })
    }
}

proof fn lemma_damage_chain(x: Seq<SimHero>, y: Seq<SimHero>, z: Seq<SimHero>, n: nat)
    ensures
        damage_upto(x, z, n) == damage_upto(x, y, n) + damage_upto(y, z, n),
    decreases n,
{
    if n > 0 {
        lemma_damage_chain(x, y, z, (n - 1) as nat);
    }
}

proof fn lemma_damage_update(x: Seq<SimHero>, i: int, h: SimHero, n: nat)
    requires
        0 <= i < x.len(),
        n <= x.len(),
    ensures
        damage_upto(x, x.update(i, h), n) == (if i < n {
            x[i].hp - h.hp
        } else {
            0
        }),
    decreases n,
{
    if n > 0 {
        lemma_damage_update(x, i, h, (n - 1) as nat);
    }
}

proof fn lemma_damage_same_hp(a: Seq<SimHero>, b: Seq<SimHero>, c: Seq<SimHero>, n: nat)
    requires
        n <= a.len(),
        n <= b.len(),
        forall|i: int| 0 <= i < n ==> #[trigger] a[i].hp == b[i].hp,
    ensures
        damage_upto(a, c, n) == damage_upto(b, c, n),
    decreases n,
{
    if n > 0 {
        lemma_damage_same_hp(a, b, c, (n - 1) as nat);
    }
}

/// A loss of nothing over a team none of whose heroes gains hit points
/// leaves every hero's hit points as they were.
proof fn lemma_no_damage(a: Seq<SimHero>, b: Seq<SimHero>, n: nat)
    requires
        n <= a.len(),
        n <= b.len(),
        forall|i: int| 0 <= i < n ==> #[trigger] b[i].hp <= a[i].hp,
        damage_upto(a, b, n) <= 0,
    ensures
        forall|i: int| 0 <= i < n ==> #[trigger] b[i].hp == a[i].hp,
    decreases n,
{
    if n > 0 {
        assert(b[n - 1].hp <= a[n - 1].hp);
        assert(damage_upto(a, b, (n - 1) as nat) >= 0) by {
            lemma_damage_nonneg(a, b, (n - 1) as nat);
        }
        lemma_no_damage(a, b, (n - 1) as nat);
    }
}

proof fn lemma_damage_nonneg(a: Seq<SimHero>, b: Seq<SimHero>, n: nat)
    requires
        n <= a.len(),
        n <= b.len(),
        forall|i: int| 0 <= i < n ==> #[trigger] b[i].hp <= a[i].hp,
    ensures
        damage_upto(a, b, n) >= 0,
    decreases n,
{
    if n > 0 {
        assert(b[n - 1].hp <= a[n - 1].hp);
        lemma_damage_nonneg(a, b, (n - 1) as nat);
    }
}

/// Law of one projectile's flight: it wounds at most one hero, once, and
/// only one of the team it flies against (the enemy's for a projectile of
/// `my_id`, mine for any other), leaving the other team as it was; a
/// projectile still in flight afterwards has lost one unit of its time to
/// live (and has some left) and has flown six points further along its line,
/// or to the end of the line if that is nearer.
pub proof fn lemma_fly(
    p: SimProjectile,
    my_id: i32,
    g: Seq<Seq<i32>>,
    width: int,
    height: int,
    mine: Seq<SimHero>,
    theirs: Seq<SimHero>,
)
    requires
        mine.len() <= usize::MAX,
        theirs.len() <= usize::MAX,
    ensures
        only_wounded(mine, fly(p, my_id, g, width, height, mine, theirs).1),
        only_wounded(theirs, fly(p, my_id, g, width, height, mine, theirs).2),
        p.owner_id == my_id ==> fly(p, my_id, g, width, height, mine, theirs).1 == mine
            && at_most_one_wound(theirs, fly(p, my_id, g, width, height, mine, theirs).2),
        p.owner_id != my_id ==> fly(p, my_id, g, width, height, mine, theirs).2 == theirs
            && at_most_one_wound(mine, fly(p, my_id, g, width, height, mine, theirs).1),
        fly(p, my_id, g, width, height, mine, theirs).0 matches Some(q) ==> {
            &&& q.ttl >= 0
            &&& q.ttl == p.ttl - 1
            &&& p.steps_taken <= q.steps_taken <= p.steps_taken + 6
            &&& q.steps_taken == ({
                let last = line(p.origin_x, p.origin_y, p.aim_x, p.aim_y).len() - 1;
                let reach = if p.steps_taken + 6 <= last {
                    p.steps_taken + 6
                } else {
                    last
                };
                if p.steps_taken <= reach {
                    reach
                } else {
                    p.steps_taken as int
                }
            })
            &&& q.owner_id == p.owner_id
            &&& q.origin_x == p.origin_x && q.origin_y == p.origin_y
            &&& q.aim_x == p.aim_x && q.aim_y == p.aim_y
        },
{
    let path = line(p.origin_x, p.origin_y, p.aim_x, p.aim_y);
    let ts = if p.owner_id == my_id {
        theirs
    } else {
        mine
    };
    lemma_scan_struck(path, p.steps_taken as int, flight_end(p), ts, g, width, height);
    assert(only_wounded(mine, mine));
    assert(only_wounded(theirs, theirs));
    match scan(path, p.steps_taken as int, flight_end(p), ts, g, width, height) {
        Impact::Struck(i) => {
            let hit = ts.update(i as int, wounded(ts[i as int]));
            assert(ts[i as int].hp > 0);
            assert((ts[i as int].hp - wounded(ts[i as int]).hp) % 1000 == 0);
            assert(only_wounded(ts, hit)) by {
                assert forall|k: int| 0 <= k < ts.len() implies {
                    let b = #[trigger] ts[k];
                    let a = hit[k];
                    &&& a.id == b.id
                    &&& a.owner_id == b.owner_id
                    &&& a.x == b.x
                    &&& a.y == b.y
                    &&& a.cooldown == b.cooldown
                    &&& a.hp <= b.hp
                    &&& (b.hp - a.hp) % 1000 == 0
                    &&& b.hp <= 0 ==> a == b
                } by {
                    if k == i as int {
                        assert(hit[k] == wounded(ts[k]));
                    } else {
                        assert(hit[k] == ts[k]);
                    }
                }
            }
        },
        _ => {},
    }
}

/// Law of all projectiles' flights in a turn: they only wound heroes, in
/// steps of 1000; the enemy team loses at most 1000 hit points per
/// projectile of `my_id` and my team at most 1000 per projectile of anyone
/// else (no friendly fire); the projectiles still in flight afterwards are
/// at most as many as before, each with time to live left.
pub proof fn lemma_resolve(
    ps: Seq<SimProjectile>,
    my_id: i32,
    g: Seq<Seq<i32>>,
    width: int,
    height: int,
    mine: Seq<SimHero>,
    theirs: Seq<SimHero>,
)
    requires
        mine.len() <= usize::MAX,
        theirs.len() <= usize::MAX,
    ensures
        only_wounded(mine, resolve(ps, my_id, g, width, height, mine, theirs).1),
        only_wounded(theirs, resolve(ps, my_id, g, width, height, mine, theirs).2),
        team_damage(mine, resolve(ps, my_id, g, width, height, mine, theirs).1) <= 1000 * shots_by(
            ps,
            my_id,
            false,
        ),
        team_damage(theirs, resolve(ps, my_id, g, width, height, mine, theirs).2) <= 1000 * shots_by(
            ps,
            my_id,
            true,
        ),
        resolve(ps, my_id, g, width, height, mine, theirs).0.len() <= ps.len(),
        forall|i: int|
            0 <= i < resolve(ps, my_id, g, width, height, mine, theirs).0.len() ==> (#[trigger] resolve(
                ps,
                my_id,
                g,
                width,
                height,
                mine,
                theirs,
            ).0[i]).ttl >= 0,
    decreases ps.len(),
{
    if ps.len() == 0 {
        assert(only_wounded(mine, mine));
        assert(only_wounded(theirs, theirs));
        assert(team_damage(mine, mine) == 0) by {
            lemma_damage_chain(mine, mine, mine, mine.len());
        }
        assert(team_damage(theirs, theirs) == 0) by {
            lemma_damage_chain(theirs, theirs, theirs, theirs.len());
        }
    } else {
        let r = resolve(ps.drop_last(), my_id, g, width, height, mine, theirs);
        lemma_resolve(ps.drop_last(), my_id, g, width, height, mine, theirs);
        lemma_fly(ps.last(), my_id, g, width, height, r.1, r.2);
        let f = fly(ps.last(), my_id, g, width, height, r.1, r.2);
        lemma_only_wounded_trans(mine, r.1, f.1);
        lemma_only_wounded_trans(theirs, r.2, f.2);
        lemma_wound_damage(r.1, f.1);
        lemma_wound_damage(r.2, f.2);
        lemma_damage_chain(mine, r.1, f.1, mine.len());
        lemma_damage_chain(theirs, r.2, f.2, theirs.len());
        let out = resolve(ps, my_id, g, width, height, mine, theirs);
        assert forall|i: int| 0 <= i < out.0.len() implies (#[trigger] out.0[i]).ttl >= 0 by {
            if i < r.0.len() {
                assert(out.0[i] == r.0[i]);
            }
        }
    }
}

/// A team left as it was has lost nothing; one wounded once has lost 1000
/// hit points.
proof fn lemma_wound_damage(before: Seq<SimHero>, after: Seq<SimHero>)
    requires
        at_most_one_wound(before, after) || after == before,
    ensures
        after == before ==> team_damage(before, after) == 0,
        at_most_one_wound(before, after) ==> team_damage(before, after) == 0 || team_damage(
            before,
            after,
        ) == 1000,
{
    assert(team_damage(before, before) == 0) by {
        lemma_damage_chain(before, before, before, before.len());
    }
    if after != before && at_most_one_wound(before, after) {
        let i = choose|i: int|
            0 <= i < before.len() && (#[trigger] before[i]).hp > 0 && after == before.update(
                i,
                wounded(before[i]),
            );
        lemma_damage_update(before, i, wounded(before[i]), before.len());
    }
}

/// A team fires at most one projectile per hero.
pub proof fn lemma_volley_len(hs: Seq<SimHero>, my_id: i32, mine: Map<i32, Action>, theirs: Map<i32, Action>)
    ensures
        volley(hs, my_id, mine, theirs).len() <= hs.len(),
    decreases hs.len(),
{
    if hs.len() > 0 {
        lemma_volley_len(hs.drop_last(), my_id, mine, theirs);
    }
}

/// What a turn may do to one hero: it keeps its id and owner; it never
/// gains hit points and loses them in steps of 1000; a dead hero is left
/// exactly as it was; a hero either stays where it was or moves at most
/// three cells on each axis to a place where it can stand; a cooldown
/// between 0 and 4 stays between 0 and 4.
pub open spec fn hero_turn_ok(before: SimHero, after: SimHero, g: Seq<Seq<i32>>) -> bool {
    &&& after.id == before.id
    &&& after.owner_id == before.owner_id
    &&& after.hp <= before.hp
    &&& (before.hp - after.hp) % 1000 == 0
    &&& before.hp <= 0 ==> after == before
    &&& (after.x == before.x && after.y == before.y) || (standable(g, after.x as int, after.y as int)
        && dist(after.x as int, before.x as int) <= 3 && dist(after.y as int, before.y as int) <= 3)
    &&& 0 <= before.cooldown <= 4 ==> 0 <= after.cooldown <= 4
}

proof fn lemma_team_turn(
    hs: Seq<SimHero>,
    out: Seq<SimHero>,
    my_id: i32,
    mine: Map<i32, Action>,
    theirs: Map<i32, Action>,
    g: Seq<Seq<i32>>,
    width: int,
    height: int,
)
    requires
        width <= i32::MAX,
        height <= i32::MAX,
        only_wounded(
            team_fired(team_moved(hs, my_id, mine, theirs, g, width, height), my_id, mine, theirs),
            out,
        ),
    ensures
        out.len() == hs.len(),
        forall|i: int| 0 <= i < hs.len() ==> hero_turn_ok(#[trigger] hs[i], out[i], g),
        team_damage(hs, out) == team_damage(
            team_fired(team_moved(hs, my_id, mine, theirs, g, width, height), my_id, mine, theirs),
            out,
        ),
{
    let m1 = team_moved(hs, my_id, mine, theirs, g, width, height);
    let f1 = team_fired(m1, my_id, mine, theirs);
    assert forall|i: int| 0 <= i < hs.len() implies hero_turn_ok(#[trigger] hs[i], out[i], g) && hs[i].hp
        == f1[i].hp by {
        let h = hs[i];
        let a = chosen_action(h, my_id, mine, theirs);
        assert(f1[i] == f1[i]);
        assert(m1[i] == after_move(h, a, g, width, height));
        assert(chosen_action(m1[i], my_id, mine, theirs) == a);
        assert(f1[i] == after_fire(m1[i], a));
        let mv = m1[i];
        if mv.x != h.x || mv.y != h.y {
            match a {
                Action::Move { x: tx, y: ty } => {
                    let nx = h.x + 3 * sign(tx - h.x);
                    let ny = h.y + 3 * sign(ty - h.y);
                    assert(1 <= nx < width - 1 && 1 <= ny < height - 1 && standable(g, nx, ny));
                    assert(mv.x == nx);
                    assert(mv.y == ny);
                },
                _ => {},
            }
        }
    }
    lemma_damage_same_hp(hs, f1, out, hs.len());
}

/// Law of a turn: each team keeps its heroes in order, and each hero changes
/// only as `hero_turn_ok` allows (hit points lost only in steps of 1000);
/// the enemy team loses at most 1000 hit points per projectile of mine that
/// flies in the turn and my team at most 1000 per other projectile, so a
/// team is never hurt by its own side's shots; the projectiles still in
/// flight are at most those before plus one per hero, each with time to
/// live left.
pub proof fn lemma_turn_laws(s: SimState, mine: Map<i32, Action>, theirs: Map<i32, Action>)
    ensures
        ({
            let r = turn(s, mine, theirs);
            let ps = turn_projectiles(s, mine, theirs);
            &&& r.1.len() == s.my_heroes@.len()
            &&& r.2.len() == s.enemy_heroes@.len()
            &&& forall|i: int|
                0 <= i < s.my_heroes@.len() ==> hero_turn_ok(
                    #[trigger] s.my_heroes@[i],
                    r.1[i],
                    grid_of(s),
                )
            &&& forall|i: int|
                0 <= i < s.enemy_heroes@.len() ==> hero_turn_ok(
                    #[trigger] s.enemy_heroes@[i],
                    r.2[i],
                    grid_of(s),
                )
            &&& team_damage(s.enemy_heroes@, r.2) <= 1000 * shots_by(ps, s.my_player_id, true)
            &&& team_damage(s.my_heroes@, r.1) <= 1000 * shots_by(ps, s.my_player_id, false)
            &&& shots_by(ps, s.my_player_id, false) == 0 ==> forall|i: int|
                0 <= i < s.my_heroes@.len() ==> (#[trigger] r.1[i]).hp == s.my_heroes@[i].hp
            &&& shots_by(ps, s.my_player_id, true) == 0 ==> forall|i: int|
                0 <= i < s.enemy_heroes@.len() ==> (#[trigger] r.2[i]).hp == s.enemy_heroes@[i].hp
            &&& r.0.len() <= s.projectiles@.len() + s.my_heroes@.len() + s.enemy_heroes@.len()
            &&& forall|i: int| 0 <= i < r.0.len() ==> (#[trigger] r.0[i]).ttl >= 0
        }),
{
    let g = grid_of(s);
    let id = s.my_player_id;
    let w = s.map_width as int;
    let h = s.map_height as int;
    let m1 = team_moved(s.my_heroes@, id, mine, theirs, g, w, h);
    let e1 = team_moved(s.enemy_heroes@, id, mine, theirs, g, w, h);
    let ps = turn_projectiles(s, mine, theirs);
    lemma_volley_len(m1, id, mine, theirs);
    lemma_volley_len(e1, id, mine, theirs);
    let mf = team_fired(m1, id, mine, theirs);
    let ef = team_fired(e1, id, mine, theirs);
    assert(s.my_heroes@.len() == s.my_heroes.len());
    assert(s.enemy_heroes@.len() == s.enemy_heroes.len());
    lemma_resolve(ps, id, g, w, h, mf, ef);
    let r = resolve(ps, id, g, w, h, mf, ef);
    lemma_team_turn(s.my_heroes@, r.1, id, mine, theirs, g, w, h);
    lemma_team_turn(s.enemy_heroes@, r.2, id, mine, theirs, g, w, h);
    if shots_by(ps, id, false) == 0 {
        assert forall|i: int| 0 <= i < s.my_heroes@.len() implies #[trigger] r.1[i].hp <= s.my_heroes@[i].hp by {
            assert(hero_turn_ok(s.my_heroes@[i], r.1[i], g));
        }
        lemma_no_damage(s.my_heroes@, r.1, s.my_heroes@.len());
    }
    if shots_by(ps, id, true) == 0 {
        assert forall|i: int| 0 <= i < s.enemy_heroes@.len() implies #[trigger] r.2[i].hp <= s.enemy_heroes@[i].hp by {
            assert(hero_turn_ok(s.enemy_heroes@[i], r.2[i], g));
        }
        lemma_no_damage(s.enemy_heroes@, r.2, s.enemy_heroes@.len());
    }
}

/// Law of building the simulated state: the two teams split the reported
/// heroes, every hero of mine belonging to `owner` and no enemy hero to it.
pub proof fn lemma_teams_partition(hs: Seq<Hero>, owner: i32)
    ensures
        team_of(hs, owner, true).len() + team_of(hs, owner, false).len() == hs.len(),
        forall|i: int|
            0 <= i < team_of(hs, owner, true).len() ==> (#[trigger] team_of(hs, owner, true)[i]).owner_id
                == owner,
        forall|i: int|
            0 <= i < team_of(hs, owner, false).len() ==> (#[trigger] team_of(
                hs,
                owner,
                false,
            )[i]).owner_id != owner,
    decreases hs.len(),
{
    if hs.len() > 0 {
        lemma_teams_partition(hs.drop_last(), owner);
        let mine = team_of(hs, owner, true);
        let prev_mine = team_of(hs.drop_last(), owner, true);
        let others = team_of(hs, owner, false);
        let prev_others = team_of(hs.drop_last(), owner, false);
        assert forall|i: int| 0 <= i < mine.len() implies (#[trigger] mine[i]).owner_id == owner by {
            if i < prev_mine.len() {
                assert(mine[i] == prev_mine[i]);
            }
        }
        assert forall|i: int| 0 <= i < others.len() implies (#[trigger] others[i]).owner_id != owner by {
            if i < prev_others.len() {
                assert(others[i] == prev_others[i]);
            }
        }
    }
}

/// Every shot offered is at a living target in the line of sight.
proof fn lemma_shots_valid(g: Seq<Seq<i32>>, hero: SimHero, ts: Seq<SimHero>, i: int)
    requires
        0 <= i < shots_at(g, hero, ts).len(),
    ensures
        exists|j: int|
            0 <= j < ts.len() && #[trigger] ts[j].hp > 0 && clear_line(g, hero.x, hero.y, ts[j].x, ts[j].y)
                && shots_at(g, hero, ts)[i] == (Action::Shoot { x: ts[j].x, y: ts[j].y }),
    decreases ts.len(),
{
    let prev = shots_at(g, hero, ts.drop_last());
    if i < prev.len() {
        lemma_shots_valid(g, hero, ts.drop_last(), i);
        let j = choose|j: int|
            0 <= j < ts.drop_last().len() && #[trigger] ts.drop_last()[j].hp > 0 && clear_line(
                g,
                hero.x,
                hero.y,
                ts.drop_last()[j].x,
                ts.drop_last()[j].y,
            ) && prev[i] == (Action::Shoot { x: ts.drop_last()[j].x, y: ts.drop_last()[j].y });
        assert(ts[j] == ts.drop_last()[j]);
    } else {
        assert(ts[ts.len() - 1].hp > 0);
    }
}

/// Law of the actions offered to a hero: the first is `Wait`; a dead hero
/// has no other; every move goes three cells (on at least one axis, at most
/// three on each) to a place where the hero can stand; every shot aims at a
/// living opponent in the line of sight, and is offered only when the
/// hero's cooldown is 0.
pub proof fn lemma_possible_actions(s: SimState, hero: SimHero, i: int)
    requires
        grid_ok(grid_of(s)),
        0 <= i < possible_actions(s, hero).len(),
    ensures
        possible_actions(s, hero)[0] == Action::Wait,
        hero.hp <= 0 ==> possible_actions(s, hero).len() == 1,
        possible_actions(s, hero)[i] matches Action::Move { x, y } ==> {
            &&& hero.hp > 0
            &&& standable(grid_of(s), x as int, y as int)
            &&& dist(x as int, hero.x as int) <= 3
            &&& dist(y as int, hero.y as int) <= 3
            &&& (dist(x as int, hero.x as int) == 3 || dist(y as int, hero.y as int) == 3)
        },
        possible_actions(s, hero)[i] matches Action::Shoot { x, y } ==> {
            &&& hero.hp > 0
            &&& hero.cooldown == 0
            &&& exists|j: int|
                0 <= j < opponents(s, hero).len() && #[trigger] opponents(s, hero)[j].hp > 0 && opponents(
                    s,
                    hero,
                )[j].x == x && opponents(s, hero)[j].y == y && clear_line(
                    grid_of(s),
                    hero.x,
                    hero.y,
                    x,
                    y,
                )
        },
{
    if hero.hp > 0 {
        let g = grid_of(s);
        let targets = move_targets(g, hero.x as int, hero.y as int);
        let moves = moves_to(targets);
        let shots = if hero.cooldown == 0 {
            shots_at(g, hero, opponents(s, hero))
        } else {
            Seq::empty()
        };
        let all = seq![Action::Wait] + moves + shots;
        assert(possible_actions(s, hero) == all);
        if 1 <= i < 1 + moves.len() {
            lemma_move_targets_valid(g, hero.x as int, hero.y as int, 8, i - 1);
            assert(all[i] == moves[i - 1]);
        } else if i >= 1 + moves.len() {
            assert(all[i] == shots[i - 1 - moves.len()]);
            if hero.cooldown == 0 {
                lemma_shots_valid(g, hero, opponents(s, hero), i - 1 - moves.len());
            }
        }
    }
}

/// Every living target in the line of sight yields a shot at its position.
proof fn lemma_shots_complete(g: Seq<Seq<i32>>, hero: SimHero, ts: Seq<SimHero>, j: int)
    requires
        0 <= j < ts.len(),
        ts[j].hp > 0,
        clear_line(g, hero.x, hero.y, ts[j].x, ts[j].y),
    ensures
        shots_at(g, hero, ts).contains(Action::Shoot { x: ts[j].x, y: ts[j].y }),
    decreases ts.len(),
{
    let prev = shots_at(g, hero, ts.drop_last());
    let a = Action::Shoot { x: ts[j].x, y: ts[j].y };
    if j < ts.len() - 1 {
        assert(ts.drop_last()[j] == ts[j]);
        lemma_shots_complete(g, hero, ts.drop_last(), j);
        let i = choose|i: int| 0 <= i < prev.len() && prev[i] == a;
        assert(shots_at(g, hero, ts)[i] == a);
    } else {
        assert(shots_at(g, hero, ts) == prev.push(a));
        assert(shots_at(g, hero, ts)[prev.len() as int] == a);
    }
}

/// Law of the actions offered to a living hero: nothing open to it is left
/// out. Every place three cells away on one or both axes (level on the
/// other axis if only one) where it can stand is offered as a move; and,
/// when its cooldown is 0, every living opponent to which it has a clear
/// line is offered as a shot at that opponent's position.
pub proof fn lemma_possible_actions_complete(s: SimState, hero: SimHero)
    requires
        hero.hp > 0,
    ensures
        forall|tx: int, ty: int|
            (dist(tx, hero.x as int) == 0 || dist(tx, hero.x as int) == 3) && (dist(ty, hero.y as int) == 0
                || dist(ty, hero.y as int) == 3) && (tx != hero.x || ty != hero.y) && #[trigger] standable(
                grid_of(s),
                tx,
                ty,
            ) ==> possible_actions(s, hero).contains(Action::Move { x: tx as i32, y: ty as i32 }),
        ({
            let opp = if hero.owner_id == s.my_player_id {
                s.enemy_heroes@
            } else {
                s.my_heroes@
            };
            hero.cooldown == 0 ==> forall|j: int|
                0 <= j < opp.len() && (#[trigger] opp[j]).hp > 0 && clear_line(
                    grid_of(s),
                    hero.x,
                    hero.y,
                    opp[j].x,
                    opp[j].y,
                ) ==> possible_actions(s, hero).contains(Action::Shoot { x: opp[j].x, y: opp[j].y })
        }),
{
    let g = grid_of(s);
    let targets = move_targets(g, hero.x as int, hero.y as int);
    let moves = moves_to(targets);
    let shots = if hero.cooldown == 0 {
        shots_at(g, hero, opponents(s, hero))
    } else {
        Seq::empty()
    };
    let all = seq![Action::Wait] + moves + shots;
    assert(possible_actions(s, hero) == all);
    assert forall|tx: int, ty: int|
        (dist(tx, hero.x as int) == 0 || dist(tx, hero.x as int) == 3) && (dist(ty, hero.y as int) == 0
            || dist(ty, hero.y as int) == 3) && (tx != hero.x || ty != hero.y) && #[trigger] standable(
            g,
            tx,
            ty,
        ) implies all.contains(Action::Move { x: tx as i32, y: ty as i32 }) by {
        lemma_move_targets_complete(g, hero.x as int, hero.y as int, tx, ty);
        let i = choose|i: int| 0 <= i < targets.len() && targets[i] == (tx as i32, ty as i32);
        assert(moves[i] == Action::Move { x: tx as i32, y: ty as i32 });
        assert(all[1 + i] == moves[i]);
    }
    if hero.cooldown == 0 {
        let opp = opponents(s, hero);
        assert forall|j: int|
            0 <= j < opp.len() && (#[trigger] opp[j]).hp > 0 && clear_line(
                g,
                hero.x,
                hero.y,
                opp[j].x,
                opp[j].y,
            ) implies all.contains(Action::Shoot { x: opp[j].x, y: opp[j].y }) by {
            lemma_shots_complete(g, hero, opp, j);
            let a = Action::Shoot { x: opp[j].x, y: opp[j].y };
            let i = choose|i: int| 0 <= i < shots.len() && shots[i] == a;
            assert(all[1 + moves.len() + i] == shots[i]);
        }
    }
}

/// Law of the split into teams: the team of `owner` (`mine`) or of the
/// others (`!mine`) is made of the reported heroes that belong to it, each
/// exactly once and in the reported order, each copied field by field (id,
/// owner, position, hit points and cooldown). The returned sequence gives,
/// for each member of the team, the position of the reported hero it copies.
pub proof fn lemma_team_of_copies(hs: Seq<Hero>, owner: i32, mine: bool) -> (idx: Seq<int>)
    ensures
        idx.len() == team_of(hs, owner, mine).len(),
        forall|i: int, j: int| 0 <= i < j < idx.len() ==> #[trigger] idx[i] < #[trigger] idx[j],
        forall|i: int|
            0 <= i < idx.len() ==> {
                let k = #[trigger] idx[i];
                let t = team_of(hs, owner, mine)[i];
                &&& 0 <= k < hs.len()
                &&& (hs[k].owner_id == owner) == mine
                &&& t.id == hs[k].id
                &&& t.owner_id == hs[k].owner_id
                &&& t.x == hs[k].x
                &&& t.y == hs[k].y
                &&& t.hp == hs[k].hp
                &&& t.cooldown == hs[k].cooldown
            },
        forall|k: int|
            0 <= k < hs.len() && (#[trigger] hs[k].owner_id == owner) == mine ==> exists|i: int|
                0 <= i < idx.len() && idx[i] == k,
    decreases hs.len(),
{
    if hs.len() == 0 {
        Seq::empty()
    } else {
        let pre = hs.drop_last();
        let prev = lemma_team_of_copies(pre, owner, mine);
        let n = hs.len() - 1;
        assert forall|k: int| 0 <= k < n implies #[trigger] hs[k] == pre[k] by {}
        if (hs.last().owner_id == owner) == mine {
            let idx = prev.push(n);
            let team = team_of(hs, owner, mine);
            assert(team == team_of(pre, owner, mine).push(sim_hero_of(hs.last())));
            assert forall|i: int| 0 <= i < idx.len() implies {
                let k = #[trigger] idx[i];
                let t = team_of(hs, owner, mine)[i];
                &&& 0 <= k < hs.len()
                &&& (hs[k].owner_id == owner) == mine
                &&& t.id == hs[k].id
                &&& t.owner_id == hs[k].owner_id
                &&& t.x == hs[k].x
                &&& t.y == hs[k].y
                &&& t.hp == hs[k].hp
                &&& t.cooldown == hs[k].cooldown
            } by {
                if i < prev.len() {
                    assert(idx[i] == prev[i]);
                    assert(team[i] == team_of(pre, owner, mine)[i]);
                } else {
                    assert(hs[n] == hs.last());
                }
            }
            assert forall|i: int, j: int| 0 <= i < j < idx.len() implies #[trigger] idx[i] < #[trigger] idx[j] by {
                if j < prev.len() {
                    assert(idx[i] == prev[i] && idx[j] == prev[j]);
                } else {
                    assert(idx[i] == prev[i]);
                    assert(0 <= prev[i] < pre.len());
                }
            }
            assert forall|k: int| 0 <= k < hs.len() && (#[trigger] hs[k].owner_id == owner) == mine implies exists|i: int|
                0 <= i < idx.len() && idx[i] == k by {
                if k < n {
                    assert((pre[k].owner_id == owner) == mine);
                    let i = choose|i: int| 0 <= i < prev.len() && prev[i] == k;
                    assert(idx[i] == k);
                } else {
                    assert(idx[prev.len() as int] == k);
                }
            }
            idx
        } else {
            assert(team_of(hs, owner, mine) == team_of(pre, owner, mine));
            assert forall|k: int| 0 <= k < hs.len() && (#[trigger] hs[k].owner_id == owner) == mine implies exists|i: int|
                0 <= i < prev.len() && prev[i] == k by {
                assert(k < n);
                assert((pre[k].owner_id == owner) == mine);
            }
            prev
        }
    }
}

/// Law of one hero's turn. The hero takes the action given for its id in its
/// own side's map (the first map for heroes of the player, the second for
/// the others), and waits when there is none. If it is alive:
/// - with a positive cooldown, it ends the turn with that cooldown lowered
///   by exactly one, whatever its action;
/// - with cooldown 0, it ends with cooldown 4 if it shoots and 0 otherwise;
/// - told to move to a point outside its own 3x3 block, it ends three cells
///   further towards that point on each axis where the point differs, if
///   that centre lies strictly inside the field's borders and the hero can
///   stand there, and where it was otherwise; with any other action it ends
///   where it was.
/// A dead hero ends the turn exactly as it began it.
pub proof fn lemma_turn_hero(
    s: SimState,
    mine: Map<i32, Action>,
    theirs: Map<i32, Action>,
    my_side: bool,
    i: int,
)
    requires
        0 <= i < (if my_side {
            s.my_heroes@.len()
        } else {
            s.enemy_heroes@.len()
        }),
    ensures
        ({
            let h = if my_side {
                s.my_heroes@[i]
            } else {
                s.enemy_heroes@[i]
            };
            let after = if my_side {
                turn(s, mine, theirs).1[i]
            } else {
                turn(s, mine, theirs).2[i]
            };
            let m = if h.owner_id == s.my_player_id {
                mine
            } else {
                theirs
            };
            let shoots = m.contains_key(h.id) && m[h.id] is Shoot;
            &&& h.hp <= 0 ==> after == h
            &&& h.hp > 0 && h.cooldown > 0 ==> after.cooldown == h.cooldown - 1
            &&& h.hp > 0 && h.cooldown == 0 ==> after.cooldown == (if shoots {
                4int
            } else {
                0int
            })
            &&& h.hp > 0 ==> {
                if m.contains_key(h.id) && m[h.id] is Move && (dist(m[h.id]->Move_x as int, h.x as int) > 1
                    || dist(m[h.id]->Move_y as int, h.y as int) > 1) {
                    let tx = m[h.id]->Move_x;
                    let ty = m[h.id]->Move_y;
                    let nx = h.x + (if tx > h.x {
                        3int
                    } else if tx < h.x {
                        -3int
                    } else {
                        0int
                    });
                    let ny = h.y + (if ty > h.y {
                        3int
                    } else if ty < h.y {
                        -3int
                    } else {
                        0int
                    });
                    if 1 <= nx < s.map_width - 1 && 1 <= ny < s.map_height - 1 && standable(
                        grid_of(s),
                        nx,
                        ny,
                    ) {
                        after.x == nx && after.y == ny
                    } else {
                        after.x == h.x && after.y == h.y
                    }
                } else {
                    after.x == h.x && after.y == h.y
                }
            }
        }),
{
    let g = grid_of(s);
    let id = s.my_player_id;
    let w = s.map_width as int;
    let ht = s.map_height as int;
    let m1 = team_moved(s.my_heroes@, id, mine, theirs, g, w, ht);
    let e1 = team_moved(s.enemy_heroes@, id, mine, theirs, g, w, ht);
    let ps = turn_projectiles(s, mine, theirs);
    let mf = team_fired(m1, id, mine, theirs);
    let ef = team_fired(e1, id, mine, theirs);
    assert(s.my_heroes@.len() == s.my_heroes.len());
    assert(s.enemy_heroes@.len() == s.enemy_heroes.len());
    lemma_resolve(ps, id, g, w, ht, mf, ef);
    let r = resolve(ps, id, g, w, ht, mf, ef);
    assert(turn(s, mine, theirs) == r);
    lemma_turn_laws(s, mine, theirs);
    let hs = if my_side {
        s.my_heroes@
    } else {
        s.enemy_heroes@
    };
    let mv = if my_side {
        m1
    } else {
        e1
    };
    let fired = if my_side {
        mf
    } else {
        ef
    };
    let out = if my_side {
        r.1
    } else {
        r.2
    };
    assert(only_wounded(fired, out));
    let h = hs[i];
    let a = chosen_action(h, id, mine, theirs);
    assert(mv[i] == after_move(h, a, g, w, ht));
    assert(chosen_action(mv[i], id, mine, theirs) == a);
    assert(fired[i] == after_fire(mv[i], a));
    assert(fired[i] == fired[i]);
    assert(hero_turn_ok(hs[i], out[i], g));
}

/// Law of shooting in a turn: a living hero whose cooldown is 0 and whose
/// action (looked up as for the turn) is a shot at `(x, y)` fires a
/// projectile of its owner from its own place towards `(x, y)`, with a time
/// to live of 4 and nothing flown yet; it flies this very turn, after those
/// already in flight, which fly first and in their order.
pub proof fn lemma_turn_fires(
    s: SimState,
    mine: Map<i32, Action>,
    theirs: Map<i32, Action>,
    my_side: bool,
    i: int,
)
    requires
        0 <= i < (if my_side {
            s.my_heroes@.len()
        } else {
            s.enemy_heroes@.len()
        }),
    ensures
        turn_projectiles(s, mine, theirs).take(s.projectiles@.len() as int) == s.projectiles@,
        ({
            let h = if my_side {
                s.my_heroes@[i]
            } else {
                s.enemy_heroes@[i]
            };
            let m = if h.owner_id == s.my_player_id {
                mine
            } else {
                theirs
            };
            h.hp > 0 && h.cooldown == 0 && m.contains_key(h.id) && m[h.id] is Shoot
                ==> turn_projectiles(s, mine, theirs).contains(
                SimProjectile {
                    owner_id: h.owner_id,
                    origin_x: h.x,
                    origin_y: h.y,
                    aim_x: m[h.id]->Shoot_x,
                    aim_y: m[h.id]->Shoot_y,
                    ttl: 4,
                    steps_taken: 0,
                },
            )
        }),
{
    let g = grid_of(s);
    let id = s.my_player_id;
    let w = s.map_width as int;
    let ht = s.map_height as int;
    let m1 = team_moved(s.my_heroes@, id, mine, theirs, g, w, ht);
    let e1 = team_moved(s.enemy_heroes@, id, mine, theirs, g, w, ht);
    let vm = volley(m1, id, mine, theirs);
    let ve = volley(e1, id, mine, theirs);
    let ps = turn_projectiles(s, mine, theirs);
    assert(ps == s.projectiles@ + vm + ve);
    assert(ps.take(s.projectiles@.len() as int) =~= s.projectiles@);
    let mv = if my_side {
        m1
    } else {
        e1
    };
    let hs = if my_side {
        s.my_heroes@
    } else {
        s.enemy_heroes@
    };
    let h = hs[i];
    let a = chosen_action(h, id, mine, theirs);
    assert(mv[i] == after_move(h, a, g, w, ht));
    assert(chosen_action(mv[i], id, mine, theirs) == a);
    if h.hp > 0 && h.cooldown == 0 && a is Shoot {
        let q = SimProjectile {
            owner_id: h.owner_id,
            origin_x: h.x,
            origin_y: h.y,
            aim_x: a->Shoot_x,
            aim_y: a->Shoot_y,
            ttl: 4,
            steps_taken: 0,
        };
        assert(mv[i] == h);
        lemma_volley_contains(mv, id, mine, theirs, i);
        let v = volley(mv, id, mine, theirs);
        let k = choose|k: int| 0 <= k < v.len() && v[k] == q;
        if my_side {
            assert(ps[s.projectiles@.len() + k] == q);
        } else {
            assert(ps[s.projectiles@.len() + vm.len() + k] == q);
        }
    }
}

/// Each hero that fires this turn adds its projectile to its team's volley.
proof fn lemma_volley_contains(
    hs: Seq<SimHero>,
    my_id: i32,
    mine: Map<i32, Action>,
    theirs: Map<i32, Action>,
    i: int,
)
    requires
        0 <= i < hs.len(),
    ensures
        shot_fired(hs[i], chosen_action(hs[i], my_id, mine, theirs)).len() == 1 ==> volley(
            hs,
            my_id,
            mine,
            theirs,
        ).contains(shot_fired(hs[i], chosen_action(hs[i], my_id, mine, theirs))[0]),
    decreases hs.len(),
{
    let pre = hs.drop_last();
    let v = volley(hs, my_id, mine, theirs);
    let vp = volley(pre, my_id, mine, theirs);
    let sf = shot_fired(hs[i], chosen_action(hs[i], my_id, mine, theirs));
    if sf.len() == 1 {
        if i < hs.len() - 1 {
            assert(pre[i] == hs[i]);
            lemma_volley_contains(pre, my_id, mine, theirs, i);
            let k = choose|k: int| 0 <= k < vp.len() && vp[k] == sf[0];
            assert(v[k] == vp[k]);
        } else {
            assert(hs.last() == hs[i]);
            assert(v[vp.len() as int] == sf[0]);
        }
    }
}

/// A living hero whose 3x3 block holds the point `q`.
pub open spec fn near(h: SimHero, q: (i32, i32)) -> bool {
    h.hp > 0 && dist(h.x as int, q.0 as int) <= 1 && dist(h.y as int, q.1 as int) <= 1
}

/// Point `u` of the path lies on the `width` x `height` field and is not a
/// wall.
pub open spec fn on_free_ground(path: Seq<(i32, i32)>, u: int, g: Seq<Seq<i32>>, width: int, height: int) -> bool {
    let q = path[u];
    0 <= q.0 < width && 0 <= q.1 < height && g[q.0 as int][q.1 as int] != 1
}

/// The points `from..to` (to excluded) of the path lie on free ground and
/// none is near a living target.
pub open spec fn open_stretch(
    path: Seq<(i32, i32)>,
    from: int,
    to: int,
    ts: Seq<SimHero>,
    g: Seq<Seq<i32>>,
    width: int,
    height: int,
) -> bool {
    forall|u: int|
        from <= u < to ==> #[trigger] on_free_ground(path, u, g, width, height) && forall|j: int|
            0 <= j < ts.len() ==> !near(ts[j], path[u])
}

/// The target at index `k` is the one a projectile at point `q` strikes: it
/// is near `q`, and every other target near `q` has a higher id, or the
/// same id and a later index.
pub open spec fn struck_first(ts: Seq<SimHero>, k: int, q: (i32, i32)) -> bool {
    near(ts[k], q) && forall|j: int|
        0 <= j < ts.len() && near(ts[j], q) ==> ts[k].id < ts[j].id || (ts[k].id == ts[j].id && k <= j)
}

/// The hero found at a point is a living one there with the lowest id among
/// those there; when none is found, no living target is there.
proof fn lemma_first_hit_min(ts: Seq<SimHero>, px: int, py: int, k: nat)
    requires
        k <= ts.len(),
        ts.len() <= usize::MAX,
    ensures
        first_hit_upto(ts, px, py, k) matches Some(i) ==> i < k && hittable(ts[i as int], px, py) && forall|j: int|
            0 <= j < k && #[trigger] hittable(ts[j], px, py) ==> ts[i as int].id < ts[j].id || (ts[i as int].id
                == ts[j].id && i <= j),
        first_hit_upto(ts, px, py, k) is None ==> forall|j: int| 0 <= j < k ==> !#[trigger] hittable(ts[j], px, py),
    decreases k,
{
    if k > 0 {
        lemma_first_hit_min(ts, px, py, (k - 1) as nat);
    }
}

/// What a projectile's scan over the points `step..=end` meets, told by the
/// first point that is not open: if that point is off free ground, a wall or
/// the edge stops it; if a living target is there, the one with the lowest
/// id among them is struck; if every point is open, it lands when its scan
/// reached the end of the line and is still in flight otherwise.
proof fn lemma_scan_cases(
    path: Seq<(i32, i32)>,
    step: int,
    end: int,
    ts: Seq<SimHero>,
    g: Seq<Seq<i32>>,
    width: int,
    height: int,
)
    requires
        0 <= step,
        end < path.len(),
        ts.len() <= usize::MAX,
    ensures
        forall|t: int|
            step <= t <= end && open_stretch(path, step, t, ts, g, width, height) && #[trigger] on_free_ground(
                path,
                t,
                g,
                width,
                height,
            ) && (exists|j: int| 0 <= j < ts.len() && near(ts[j], path[t])) ==> (scan(
                path,
                step,
                end,
                ts,
                g,
                width,
                height,
            ) matches Impact::Struck(i) && i < ts.len() && struck_first(ts, i as int, path[t])),
        forall|t: int|
            step <= t <= end && open_stretch(path, step, t, ts, g, width, height) && !#[trigger] on_free_ground(
                path,
                t,
                g,
                width,
                height,
            ) ==> scan(path, step, end, ts, g, width, height) is Blocked,
        open_stretch(path, step, end + 1, ts, g, width, height) ==> scan(path, step, end, ts, g, width, height)
            == (if step <= end && end == path.len() - 1 {
            Impact::Landed
        } else {
            Impact::Clear
        }),
    decreases end + 1 - step,
{
    if step <= end {
        let pt = path[step];
        let px = pt.0 as int;
        let py = pt.1 as int;
        assert(pt == (px as i32, py as i32));
        lemma_first_hit_min(ts, px, py, ts.len());
        assert forall|j: int| 0 <= j < ts.len() implies near(ts[j], pt) == hittable(ts[j], px, py) by {}
        assert(off_field_or_wall(g, width, height, px, py) == !on_free_ground(path, step, g, width, height));
        lemma_scan_cases(path, step + 1, end, ts, g, width, height);
        assert forall|t: int| step + 1 <= t <= end && open_stretch(path, step, t, ts, g, width, height) implies open_stretch(
            path,
            step + 1,
            t,
            ts,
            g,
            width,
            height,
        ) by {
            assert forall|u: int| step + 1 <= u < t implies #[trigger] on_free_ground(path, u, g, width, height)
                && forall|j: int| 0 <= j < ts.len() ==> !near(ts[j], path[u]) by {
                assert(step <= u < t);
            }
        }
        if open_stretch(path, step, end + 1, ts, g, width, height) {
            let all = open_stretch(path, step, end + 1, ts, g, width, height);
            assert(all);
            assert forall|u: int| step + 1 <= u < end + 1 implies #[trigger] on_free_ground(path, u, g, width, height)
                && forall|j: int| 0 <= j < ts.len() ==> !near(ts[j], path[u]) by {
                assert(step <= u < end + 1);
                assert(all);
                assert(on_free_ground(path, u, g, width, height));
            }
            assert(open_stretch(path, step + 1, end + 1, ts, g, width, height));
            assert(on_free_ground(path, step, g, width, height));
        }
        assert forall|t: int|
            step <= t <= end && open_stretch(path, step, t, ts, g, width, height) && t > step implies on_free_ground(
            path,
            step,
            g,
            width,
            height,
        ) && forall|j: int| 0 <= j < ts.len() ==> !near(ts[j], path[step]) by {
            assert(step <= step < t);
        }
    }
}

/// Law of where a projectile stops this turn. It flies over the points of
/// its line of fire from the one it has reached up to six further (at most
/// to the end of the line), and what happens is told by the first of those
/// points that is not open (open: on free ground with no living target of
/// its there):
/// - a wall or the field's edge: it falls, and nobody is wounded;
/// - living targets: it falls, and the one among them with the lowest id
///   loses 1000 hit points, nobody else anything;
/// - if every point is open, nobody is wounded; it falls when it reached
///   the end of its line or its time to live runs out, and otherwise flies
///   on with one unit less.
/// Its targets are the enemy team for a projectile of `my_id` and mine for
/// any other; the other team is never touched.
#[verifier::spinoff_prover]
#[verifier::rlimit(40)]
pub proof fn lemma_fly_outcome(
    p: SimProjectile,
    my_id: i32,
    g: Seq<Seq<i32>>,
    width: int,
    height: int,
    mine: Seq<SimHero>,
    theirs: Seq<SimHero>,
)
    requires
        mine.len() <= usize::MAX,
        theirs.len() <= usize::MAX,
    ensures
        ({
            let f = fly(p, my_id, g, width, height, mine, theirs);
            let path = line(p.origin_x, p.origin_y, p.aim_x, p.aim_y);
            let last = path.len() - 1;
            let from = p.steps_taken as int;
            let reach = if from + 6 <= last {
                from + 6
            } else {
                last
            };
            let at_theirs = p.owner_id == my_id;
            let ts = if at_theirs {
                theirs
            } else {
                mine
            };
            let hit = if at_theirs {
                f.2
            } else {
                f.1
            };
            let spared = if at_theirs {
                f.1 == mine
            } else {
                f.2 == theirs
            };
            &&& spared
            &&& forall|t: int|
                from <= t <= reach && open_stretch(path, from, t, ts, g, width, height) && !#[trigger] on_free_ground(
                    path,
                    t,
                    g,
                    width,
                    height,
                ) ==> f.0 is None && hit == ts
            &&& forall|t: int|
                from <= t <= reach && open_stretch(path, from, t, ts, g, width, height) && #[trigger] on_free_ground(
                    path,
                    t,
                    g,
                    width,
                    height,
                ) && (exists|j: int| 0 <= j < ts.len() && near(ts[j], path[t])) ==> f.0 is None && hit.len()
                    == ts.len() && forall|k: int|
                    0 <= k < ts.len() ==> #[trigger] hit[k] == if struck_first(ts, k, path[t]) {
                        SimHero { hp: (ts[k].hp - 1000) as i32, ..ts[k] }
                    } else {
                        ts[k]
                    }
            &&& open_stretch(path, from, reach + 1, ts, g, width, height) ==> hit == ts && (f.0 is Some <==> p.ttl
                >= 1 && (from > reach || reach < last))
        }),
{
    let path = line(p.origin_x, p.origin_y, p.aim_x, p.aim_y);
    let end = flight_end(p);
    let ts = if p.owner_id == my_id {
        theirs
    } else {
        mine
    };
    assert(path.len() >= 1) by {
        crate::utils::lemma_line_ends(p.origin_x, p.origin_y, p.aim_x, p.aim_y);
    }
    let f = fly(p, my_id, g, width, height, mine, theirs);
    let last = path.len() - 1;
    let from = p.steps_taken as int;
    let reach = if from + 6 <= last {
        from + 6
    } else {
        last
    };
    assert(reach == end);
    let at_theirs = p.owner_id == my_id;
    let hit = if at_theirs {
        f.2
    } else {
        f.1
    };
    lemma_scan_cases(path, from, end, ts, g, width, height);
    assert(if at_theirs {
        f.1 == mine
    } else {
        f.2 == theirs
    });
    assert forall|t: int|
        from <= t <= reach && open_stretch(path, from, t, ts, g, width, height) && !#[trigger] on_free_ground(
            path,
            t,
            g,
            width,
            height,
        ) implies f.0 is None && hit == ts by {}
    assert forall|t: int|
        from <= t <= reach && open_stretch(path, from, t, ts, g, width, height) && #[trigger] on_free_ground(
            path,
            t,
            g,
            width,
            height,
        ) && (exists|j: int| 0 <= j < ts.len() && near(ts[j], path[t])) implies f.0 is None && hit.len()
        == ts.len() && forall|k: int|
        0 <= k < ts.len() ==> #[trigger] hit[k] == if struck_first(ts, k, path[t]) {
            SimHero { hp: (ts[k].hp - 1000) as i32, ..ts[k] }
        } else {
            ts[k]
        } by {
        let sc = scan(path, from, end, ts, g, width, height);
        let i = sc->Struck_0 as int;
        assert(struck_first(ts, i, path[t]));
        assert(hit == ts.update(i, wounded(ts[i])));
        assert forall|k: int| 0 <= k < ts.len() implies #[trigger] hit[k] == if struck_first(ts, k, path[t]) {
            SimHero { hp: (ts[k].hp - 1000) as i32, ..ts[k] }
        } else {
            ts[k]
        } by {
            if k != i && struck_first(ts, k, path[t]) {
                assert(near(ts[k], path[t]) && near(ts[i], path[t]));
                assert(false);
            }
        }
    }
    if open_stretch(path, from, reach + 1, ts, g, width, height) {
        assert(hit == ts);
        assert(f.0 is Some <==> p.ttl >= 1 && (from > reach || reach < last));
    }
}

/// The shots at a sequence of targets are, in order, one at each living
/// target to which the hero has a clear line: the returned sequence gives
/// the index of the target of each shot.
proof fn lemma_shots_exact(g: Seq<Seq<i32>>, hero: SimHero, ts: Seq<SimHero>) -> (idx: Seq<int>)
    ensures
        idx.len() == shots_at(g, hero, ts).len(),
        forall|i: int, j: int| 0 <= i < j < idx.len() ==> #[trigger] idx[i] < #[trigger] idx[j],
        forall|i: int|
            0 <= i < idx.len() ==> {
                let k = #[trigger] idx[i];
                &&& 0 <= k < ts.len()
                &&& ts[k].hp > 0
                &&& clear_line(g, hero.x, hero.y, ts[k].x, ts[k].y)
                &&& shots_at(g, hero, ts)[i] == (Action::Shoot { x: ts[k].x, y: ts[k].y })
            },
        forall|k: int|
            0 <= k < ts.len() && (#[trigger] ts[k]).hp > 0 && clear_line(g, hero.x, hero.y, ts[k].x, ts[k].y)
                ==> exists|i: int| 0 <= i < idx.len() && idx[i] == k,
    decreases ts.len(),
{
    if ts.len() == 0 {
        Seq::empty()
    } else {
        let pre = ts.drop_last();
        let prev = lemma_shots_exact(g, hero, pre);
        let n = ts.len() - 1;
        let sp = shots_at(g, hero, pre);
        assert forall|k: int| 0 <= k < n implies #[trigger] ts[k] == pre[k] by {}
        let t = ts.last();
        if t.hp > 0 && clear_line(g, hero.x, hero.y, t.x, t.y) {
            let idx = prev.push(n);
            let sh = shots_at(g, hero, ts);
            assert(sh == sp.push(Action::Shoot { x: t.x, y: t.y }));
            assert forall|i: int| 0 <= i < idx.len() implies {
                let k = #[trigger] idx[i];
                &&& 0 <= k < ts.len()
                &&& ts[k].hp > 0
                &&& clear_line(g, hero.x, hero.y, ts[k].x, ts[k].y)
                &&& shots_at(g, hero, ts)[i] == (Action::Shoot { x: ts[k].x, y: ts[k].y })
            } by {
                if i < prev.len() {
                    assert(idx[i] == prev[i]);
                    assert(sh[i] == sp[i]);
                } else {
                    assert(ts[n] == t);
                }
            }
            assert forall|i: int, j: int| 0 <= i < j < idx.len() implies #[trigger] idx[i] < #[trigger] idx[j] by {
                if j < prev.len() {
                    assert(idx[i] == prev[i] && idx[j] == prev[j]);
                } else {
                    assert(idx[i] == prev[i]);
                    assert(0 <= prev[i] < pre.len());
                }
            }
            assert forall|k: int|
                0 <= k < ts.len() && (#[trigger] ts[k]).hp > 0 && clear_line(g, hero.x, hero.y, ts[k].x, ts[k].y)
                    implies exists|i: int| 0 <= i < idx.len() && idx[i] == k by {
                if k < n {
                    assert(pre[k] == ts[k]);
                    let i = choose|i: int| 0 <= i < prev.len() && prev[i] == k;
                    assert(idx[i] == k);
                } else {
                    assert(idx[prev.len() as int] == k);
                }
            }
            idx
        } else {
            assert(shots_at(g, hero, ts) == sp);
            assert forall|k: int|
                0 <= k < ts.len() && (#[trigger] ts[k]).hp > 0 && clear_line(g, hero.x, hero.y, ts[k].x, ts[k].y)
                    implies exists|i: int| 0 <= i < prev.len() && prev[i] == k by {
                assert(k < n);
                assert(pre[k] == ts[k]);
            }
            prev
        }
    }
}

/// Law of the order of the actions offered to a living hero: `Wait` comes
/// first and only there; the moves follow, each to a different place; the
/// shots come last, exactly one at each living opponent to which the hero
/// has a clear line, in the opponents' order, and none when its cooldown is
/// not 0. The returned sequence gives the opponent's index for each shot.
pub proof fn lemma_possible_actions_order(s: SimState, hero: SimHero) -> (idx: Seq<int>)
    requires
        grid_ok(grid_of(s)),
        hero.hp > 0,
    ensures
        ({
            let acts = possible_actions(s, hero);
            let opp = if hero.owner_id == s.my_player_id {
                s.enemy_heroes@
            } else {
                s.my_heroes@
            };
            let first_shot = acts.len() - idx.len();
            &&& acts[0] == Action::Wait
            &&& 1 <= first_shot <= acts.len()
            &&& forall|i: int| 1 <= i < first_shot ==> #[trigger] acts[i] is Move
            &&& forall|i: int, j: int|
                1 <= i < j < first_shot ==> #[trigger] acts[i] != #[trigger] acts[j]
            &&& hero.cooldown != 0 ==> idx.len() == 0
            &&& forall|i: int, j: int| 0 <= i < j < idx.len() ==> #[trigger] idx[i] < #[trigger] idx[j]
            &&& forall|i: int|
                0 <= i < idx.len() ==> {
                    let k = #[trigger] idx[i];
                    &&& 0 <= k < opp.len()
                    &&& opp[k].hp > 0
                    &&& clear_line(grid_of(s), hero.x, hero.y, opp[k].x, opp[k].y)
                    &&& acts[first_shot + i] == (Action::Shoot { x: opp[k].x, y: opp[k].y })
                }
            &&& hero.cooldown == 0 ==> forall|k: int|
                0 <= k < opp.len() && (#[trigger] opp[k]).hp > 0 && clear_line(
                    grid_of(s),
                    hero.x,
                    hero.y,
                    opp[k].x,
                    opp[k].y,
                ) ==> exists|i: int| 0 <= i < idx.len() && idx[i] == k
        }),
{
    let g = grid_of(s);
    let targets = move_targets(g, hero.x as int, hero.y as int);
    let moves = moves_to(targets);
    let opp = opponents(s, hero);
    let shots = if hero.cooldown == 0 {
        shots_at(g, hero, opp)
    } else {
        Seq::empty()
    };
    let acts = seq![Action::Wait] + moves + shots;
    assert(possible_actions(s, hero) == acts);
    let idx = if hero.cooldown == 0 {
        lemma_shots_exact(g, hero, opp)
    } else {
        Seq::empty()
    };
    let first_shot = acts.len() - idx.len();
    assert(first_shot == 1 + moves.len());
    assert forall|i: int| 1 <= i < first_shot implies #[trigger] acts[i] is Move by {
        assert(acts[i] == moves[i - 1]);
    }
    assert forall|i: int, j: int| 1 <= i < j < first_shot implies #[trigger] acts[i] != #[trigger] acts[j] by {
        assert(acts[i] == moves[i - 1]);
        assert(acts[j] == moves[j - 1]);
        lemma_move_targets_distinct(g, hero.x as int, hero.y as int, 8, i - 1, j - 1);
    }
    assert forall|i: int| 0 <= i < idx.len() implies acts[first_shot + i] == shots[i] by {}
    idx
}

/// Law of the projectiles' flights in a turn: with no projectile nothing
/// changes; otherwise the last projectile flies against the teams as the
/// others left them, and is kept, after those the others left in flight,
/// exactly when it is still in flight.
pub proof fn lemma_resolve_last(
    ps: Seq<SimProjectile>,
    my_id: i32,
    g: Seq<Seq<i32>>,
    width: int,
    height: int,
    mine: Seq<SimHero>,
    theirs: Seq<SimHero>,
)
    ensures
        ps.len() == 0 ==> resolve(ps, my_id, g, width, height, mine, theirs) == (
            Seq::<SimProjectile>::empty(),
            mine,
            theirs,
        ),
        ps.len() > 0 ==> ({
            let r = resolve(ps.drop_last(), my_id, g, width, height, mine, theirs);
            let f = fly(ps.last(), my_id, g, width, height, r.1, r.2);
            let out = resolve(ps, my_id, g, width, height, mine, theirs);
            &&& out.1 == f.1
            &&& out.2 == f.2
            &&& out.0 == match f.0 {
                Some(q) => r.0.push(q),
                None => r.0,
            }
        }),
{
}

} // verus!
