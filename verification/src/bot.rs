use crate::protocol::{GameState, Hero};
use crate::simulator::{Action, SimState};
use crate::utils::{cells, wall_cells, wall_grid};
use std::collections::HashMap;
use vstd::prelude::*;

verus! {

/// A command for the game server about one hero.
#[derive(Debug, Clone, Copy, PartialEq, Eq)]
pub enum Order {
    /// Move the hero towards `(x, y)`.
    Advance { hero_id: i32, x: i32, y: i32 },
    /// Shoot at `(x, y)`.
    Fire { hero_id: i32, x: i32, y: i32 },
    /// Keep the hero where it is, `(x, y)`, by moving it onto its own place.
    Hold { hero_id: i32, x: i32, y: i32 },
}

/// The first reported hero with the given id, if any.
pub open spec fn find_hero(heroes: Seq<Hero>, id: i32) -> Option<Hero>
    decreases heroes.len(),
{
    if heroes.len() == 0 {
        None
    } else if heroes[0].id == id {
        Some(heroes[0])
    } else {
        find_hero(heroes.drop_first(), id)
    }
}

/// The order for one chosen (hero id, action): a move or a shot as chosen; a
/// wait becomes a move onto the hero's reported place, and nothing when no
/// reported hero has that id.
pub open spec fn order_for(choice: (i32, Action), heroes: Seq<Hero>) -> Seq<Order> {
    match choice.1 {
        Action::Move { x, y } => seq![Order::Advance { hero_id: choice.0, x, y }],
        Action::Shoot { x, y } => seq![Order::Fire { hero_id: choice.0, x, y }],
        Action::Wait => match find_hero(heroes, choice.0) {
            Some(h) => seq![Order::Hold { hero_id: choice.0, x: h.x, y: h.y }],
            None => Seq::empty(),
        },
    }
}

/// The orders for all chosen actions, in their order.
pub open spec fn orders(choices: Seq<(i32, Action)>, heroes: Seq<Hero>) -> Seq<Order>
    decreases choices.len(),
{
    if choices.len() == 0 {
        Seq::empty()
    } else {
        orders(choices.drop_last(), heroes) + order_for(choices.last(), heroes)
    }
}

/// The first reported hero with the given id, if any.
fn find_reported(heroes: &Vec<Hero>, id: i32) -> (r: Option<(i32, i32)>)
    ensures
        match find_hero(heroes@, id) {
            Some(h) => r == Some((h.x, h.y)),
            None => r is None,
        },
{
    let mut i: usize = 0;
    assert(heroes@.skip(0) =~= heroes@);
    while i < heroes.len()
        invariant
            i <= heroes.len(),
            find_hero(heroes@, id) == find_hero(heroes@.skip(i as int), id),
        decreases heroes.len() - i,
    {
        assert(heroes@.skip(i as int).drop_first() =~= heroes@.skip(i + 1));
        if heroes[i].id == id {
            return Some((heroes[i].x, heroes[i].y));
        }
        i = i + 1;
    }
    assert(heroes@.skip(i as int) =~= Seq::<Hero>::empty());
    None
}

/// The commands to send for the chosen (hero id, action) pairs, in their
/// order: a move or a shot as chosen, and for a wait a move onto the hero's
/// reported place (no command when no reported hero has that id).
pub fn orders_for(choices: &Vec<(i32, Action)>, heroes: &Vec<Hero>) -> (r: Vec<Order>)
    ensures
        r@ == orders(choices@, heroes@),
{
    let mut r: Vec<Order> = Vec::new();
    let mut i: usize = 0;
    while i < choices.len()
        invariant
            i <= choices.len(),
            r@ == orders(choices@.take(i as int), heroes@),
        decreases choices.len() - i,
    {
        assert(choices@.take(i + 1).drop_last() =~= choices@.take(i as int));
        let (id, a) = choices[i];
        let ghost prev = r@;
        match a {
            Action::Move { x, y } => {
                r.push(Order::Advance { hero_id: id, x, y });
            },
            Action::Shoot { x, y } => {
                r.push(Order::Fire { hero_id: id, x, y });
            },
            Action::Wait => {
                match find_reported(heroes, id) {
                    Some((x, y)) => {
                        r.push(Order::Hold { hero_id: id, x, y });
                    },
                    None => {},
                }
            },
        }
        assert(r@ =~= prev + order_for(choices@[i as int], heroes@));
        i = i + 1;
    }
    assert(choices@.take(choices.len() as int) =~= choices@);
    r
}

/// The first reported hero with an id is found; with no such hero, none is.
proof fn lemma_find_hero(heroes: Seq<Hero>, id: i32)
    ensures
        forall|j: int|
            0 <= j < heroes.len() && (#[trigger] heroes[j]).id == id && (forall|k: int|
                0 <= k < j ==> heroes[k].id != id) ==> find_hero(heroes, id) == Some(heroes[j]),
        (forall|j: int| 0 <= j < heroes.len() ==> (#[trigger] heroes[j]).id != id) ==> find_hero(heroes, id)
            is None,
    decreases heroes.len(),
{
    if heroes.len() > 0 {
        let rest = heroes.drop_first();
        lemma_find_hero(rest, id);
        assert forall|j: int|
            0 <= j < heroes.len() && (#[trigger] heroes[j]).id == id && (forall|k: int|
                0 <= k < j ==> heroes[k].id != id) implies find_hero(heroes, id) == Some(heroes[j]) by {
            if j > 0 {
                assert(heroes[0].id != id);
                assert(rest[j - 1] == heroes[j]);
                assert forall|k: int| 0 <= k < j - 1 implies rest[k].id != id by {
                    assert(rest[k] == heroes[k + 1]);
                }
            }
        }
        if forall|j: int| 0 <= j < heroes.len() ==> (#[trigger] heroes[j]).id != id {
            assert(heroes[0].id != id);
            assert forall|j: int| 0 <= j < rest.len() implies (#[trigger] rest[j]).id != id by {
                assert(rest[j] == heroes[j + 1]);
            }
        }
    }
}

/// Law of the orders sent for the chosen actions: they are the orders of
/// the choices one after the other, each choice adding its own, whatever
/// came before. A move adds one `Advance` and a shot one `Fire`, for that
/// hero and point; a wait adds one `Hold` at the place of the first
/// reported hero with that id, and nothing when no reported hero has it.
/// No choice gives no order.
pub proof fn lemma_orders_step(choices: Seq<(i32, Action)>, heroes: Seq<Hero>, i: int)
    requires
        0 <= i < choices.len(),
    ensures
        ({
            let (id, a) = choices[i];
            let before = orders(choices.take(i), heroes);
            let after = orders(choices.take(i + 1), heroes);
            &&& a matches Action::Move { x, y } ==> after == before.push(
                Order::Advance { hero_id: id, x, y },
            )
            &&& a matches Action::Shoot { x, y } ==> after == before.push(
                Order::Fire { hero_id: id, x, y },
            )
            &&& a is Wait ==> forall|j: int|
                0 <= j < heroes.len() && (#[trigger] heroes[j]).id == id && (forall|k: int|
                    0 <= k < j ==> heroes[k].id != id) ==> after == before.push(
                    Order::Hold { hero_id: id, x: heroes[j].x, y: heroes[j].y },
                )
            &&& a is Wait && (forall|j: int| 0 <= j < heroes.len() ==> (#[trigger] heroes[j]).id != id)
                ==> after == before
        }),
        orders(choices.take(choices.len() as int), heroes) == orders(choices, heroes),
        orders(choices.take(0), heroes) == Seq::<Order>::empty(),
{
    let c = choices.take(i + 1);
    assert(c.drop_last() =~= choices.take(i));
    assert(c.last() == choices[i]);
    assert(choices.take(choices.len() as int) =~= choices);
    lemma_find_hero(heroes, choices[i].0);
    let before = orders(choices.take(i), heroes);
    let (id, a) = choices[i];
    match a {
        Action::Move { x, y } => {
            assert(before + seq![Order::Advance { hero_id: id, x, y }] =~= before.push(
                Order::Advance { hero_id: id, x, y },
            ));
        },
        Action::Shoot { x, y } => {
            assert(before + seq![Order::Fire { hero_id: id, x, y }] =~= before.push(
                Order::Fire { hero_id: id, x, y },
            ));
        },
        Action::Wait => {
            assert forall|j: int|
                0 <= j < heroes.len() && (#[trigger] heroes[j]).id == id && (forall|k: int|
                    0 <= k < j ==> heroes[k].id != id) implies orders(c, heroes) == before.push(
                Order::Hold { hero_id: id, x: heroes[j].x, y: heroes[j].y },
            ) by {
                assert(before + seq![Order::Hold { hero_id: id, x: heroes[j].x, y: heroes[j].y }]
                    =~= before.push(Order::Hold { hero_id: id, x: heroes[j].x, y: heroes[j].y }));
            }
            assert(before + Seq::<Order>::empty() =~= before);
        },
    }
}

broadcast use vstd::std_specs::hash::group_hash_axioms;

/// A message of the game server, with what the client reads of it.
pub enum Event {
    Hello,
    Login,
    Error { fatal: bool },
    Ready,
    Challenge,
    Practice,
    StartMatch { your_player_id: i32, width: i32, height: i32, state: GameState },
    StartTurn { state: GameState },
    Move,
    Shoot,
    EndMatch { winner: Option<String> },
}

/// How a match ended for the client.
#[derive(Debug, Clone, Copy, PartialEq, Eq)]
pub enum Verdict {
    Won,
    Lost,
    Draw,
}

/// What the client does in answer to a message.
pub enum Step {
    /// Send the login.
    SendLogin,
    /// The server sent what only a client sends: give up.
    Unexpected,
    /// Report the server's error; stop when it is fatal.
    ReportError { stop: bool },
    /// Ask for a practice match.
    SendPractice,
    /// Tell that the client was challenged.
    NoteChallenge,
    /// Tell that the practice match was accepted.
    NotePractice,
    /// The match has started; its settings are stored.
    MatchStarted,
    /// Plan the turn from this simulated state and send the orders.
    PlanTurn(SimState),
    /// Nothing to do.
    Ignore,
    /// The match is over: tell how, and stop.
    Finish(Verdict),
}

/// What the client keeps between messages.
pub struct Session {
    pub my_player_id: i32,
    pub map_width: i32,
    pub map_height: i32,
    pub world_grid: Vec<Vec<i32>>,
    pub last_known_enemies: HashMap<i32, (i32, i32)>,
}

/// The last known places of the heroes not owned by `me`, after seeing the
/// reported heroes in order (a later report of a hero replaces an earlier).
pub open spec fn remember(known: Map<i32, (i32, i32)>, hs: Seq<Hero>, me: i32) -> Map<i32, (i32, i32)>
    decreases hs.len(),
{
    if hs.len() == 0 {
        known
    } else {
        let before = remember(known, hs.drop_last(), me);
        let h = hs.last();
        if h.owner_id != me {
            before.insert(h.id, (h.x, h.y))
        } else {
            before
        }
    }
}

/// Law of the enemies remembered at the start of a match: for each id, the
/// place of the last reported hero with that id not owned by `me`; for an id
/// no such hero has, what was known before (if anything).
pub proof fn lemma_remember(known: Map<i32, (i32, i32)>, hs: Seq<Hero>, me: i32, id: i32)
    ensures
        forall|k: int|
            0 <= k < hs.len() && (#[trigger] hs[k]).id == id && hs[k].owner_id != me && (forall|j: int|
                k < j < hs.len() ==> !(hs[j].id == id && hs[j].owner_id != me)) ==> remember(
                known,
                hs,
                me,
            ).contains_key(id) && remember(known, hs, me)[id] == (hs[k].x, hs[k].y),
        (forall|k: int| 0 <= k < hs.len() ==> !((#[trigger] hs[k]).id == id && hs[k].owner_id != me)) ==> (
        remember(known, hs, me).contains_key(id) == known.contains_key(id) && (known.contains_key(id)
            ==> remember(known, hs, me)[id] == known[id])),
    decreases hs.len(),
{
    if hs.len() > 0 {
        let pre = hs.drop_last();
        let n = hs.len() - 1;
        lemma_remember(known, pre, me, id);
        assert forall|k: int| 0 <= k < n implies #[trigger] pre[k] == hs[k] by {}
        assert forall|k: int|
            0 <= k < hs.len() && (#[trigger] hs[k]).id == id && hs[k].owner_id != me && (forall|j: int|
                k < j < hs.len() ==> !(hs[j].id == id && hs[j].owner_id != me)) implies remember(
            known,
            hs,
            me,
        ).contains_key(id) && remember(known, hs, me)[id] == (hs[k].x, hs[k].y) by {
            if k < n {
                assert(!(hs[n].id == id && hs[n].owner_id != me));
                assert(pre[k].id == id);
                assert forall|j: int| k < j < pre.len() implies !(pre[j].id == id && pre[j].owner_id != me) by {
                    assert(pre[j] == hs[j]);
                }
            } else {
                assert(hs.last() == hs[k]);
            }
        }
        if forall|k: int| 0 <= k < hs.len() ==> !((#[trigger] hs[k]).id == id && hs[k].owner_id != me) {
            assert(!(hs[n].id == id && hs[n].owner_id != me));
            assert forall|k: int| 0 <= k < pre.len() implies !((#[trigger] pre[k]).id == id && pre[k].owner_id
                != me) by {
                assert(pre[k] == hs[k]);
            }
        }
    }
}

/// The verdict of a match for the player named `me`.
pub open spec fn verdict_of(winner: Option<Seq<char>>, me: Seq<char>) -> Verdict {
    match winner {
        Some(name) => if name == me {
            Verdict::Won
        } else {
            Verdict::Lost
        },
        None => Verdict::Draw,
    }
}

/// The name under which the client plays.
pub fn player_name() -> (r: String)
    ensures
        r@ == "vladChiper"@,
{
    String::from_str("vladChiper")
}

impl Session {
    /// A session before any match: player 0 on a 51 x 90 field with no grid
    /// yet and no enemy seen.
    pub fn new() -> (r: Session)
        ensures
            r.my_player_id == 0,
            r.map_width == 51,
            r.map_height == 90,
            r.world_grid@.len() == 0,
            r.last_known_enemies@ == Map::<i32, (i32, i32)>::empty(),
    {
        Session {
            my_player_id: 0,
            map_width: 51,
            map_height: 90,
            world_grid: Vec::new(),
            last_known_enemies: HashMap::new(),
        }
    }

    /// The client's answer to one message of the server. At the start of a
    /// match it remembers where the heroes not owned by the player it was
    /// until then are, takes the new player id and field size, and builds
    /// the collision grid from the walls; at the start of a turn it hands
    /// over the simulated state to plan from; at the end of a match it
    /// judges the outcome for the name `vladChiper`.
    pub fn on_event(&mut self, event: Event) -> (step: Step)
        requires
            event matches Event::StartMatch { width, height, .. } ==> width >= 0 && height >= 0,
        ensures
            match event {
                Event::StartMatch { your_player_id, width, height, state } => {
                    &&& step is MatchStarted
                    &&& final(self).my_player_id == your_player_id
                    &&& final(self).map_width == width
                    &&& final(self).map_height == height
                    &&& cells(&final(self).world_grid) == wall_cells(state.walls@, width as int, height as int)
                    &&& final(self).last_known_enemies@ == remember(
                        old(self).last_known_enemies@,
                        state.heroes@,
                        old(self).my_player_id,
                    )
                },
                _ => {
                    &&& final(self).my_player_id == old(self).my_player_id
                    &&& final(self).map_width == old(self).map_width
                    &&& final(self).map_height == old(self).map_height
                    &&& final(self).world_grid == old(self).world_grid
                    &&& final(self).last_known_enemies@ == old(self).last_known_enemies@
                },
            },
            match event {
                Event::Hello => step is SendLogin,
                Event::Login => step is Unexpected,
                Event::Error { fatal } => step == (Step::ReportError { stop: fatal }),
                Event::Ready => step is SendPractice,
                Event::Challenge => step is NoteChallenge,
                Event::Practice => step is NotePractice,
                Event::StartMatch { .. } => step is MatchStarted,
                Event::StartTurn { state } => step matches Step::PlanTurn(s) && {
                    &&& s.my_player_id == old(self).my_player_id
                    &&& s.map_width == old(self).map_width
                    &&& s.map_height == old(self).map_height
                    &&& cells(&s.grid) == cells(&old(self).world_grid)
                    &&& s.my_heroes@ == crate::simulator::team_of(state.heroes@, old(self).my_player_id, true)
                    &&& s.enemy_heroes@ == crate::simulator::team_of(state.heroes@, old(self).my_player_id, false)
                    &&& s.projectiles@ == state.projectiles@.map_values(
                        |p: crate::protocol::Projectile| crate::simulator::sim_projectile_of(p),
                    )
                },
                Event::Move => step is Ignore,
                Event::Shoot => step is Ignore,
                Event::EndMatch { winner } => step == Step::Finish(
                    verdict_of(
                        match winner {
                            Some(w) => Some(w@),
                            None => None,
                        },
                        "vladChiper"@,
                    ),
                ),
            },
    {
        match event {
            Event::Hello => Step::SendLogin,
            Event::Login => Step::Unexpected,
            Event::Error { fatal } => Step::ReportError { stop: fatal },
            Event::Ready => Step::SendPractice,
            Event::Challenge => Step::NoteChallenge,
            Event::Practice => Step::NotePractice,
            Event::StartMatch { your_player_id, width, height, state } => {
                let me = self.my_player_id;
                let mut i: usize = 0;
                let ghost known0 = self.last_known_enemies@;
                while i < state.heroes.len()
                    invariant
                        i <= state.heroes.len(),
                        self.last_known_enemies@ == remember(known0, state.heroes@.take(i as int), me),
                    decreases state.heroes.len() - i,
                {
                    assert(state.heroes@.take(i + 1).drop_last() =~= state.heroes@.take(i as int));
                    let h = &state.heroes[i];
                    if h.owner_id != me {
                        self.last_known_enemies.insert(h.id, (h.x, h.y));
                    }
                    i = i + 1;
                }
                assert(state.heroes@.take(state.heroes.len() as int) =~= state.heroes@);
                self.my_player_id = your_player_id;
                self.map_width = width;
                self.map_height = height;
                self.world_grid = wall_grid(&state.walls, width, height);
                Step::MatchStarted
            },
            Event::StartTurn { state } => {
                let sim = SimState::from_state(
                    &state,
                    &self.world_grid,
                    self.my_player_id,
                    self.map_width,
                    self.map_height,
                );
                Step::PlanTurn(sim)
            },
            Event::Move => Step::Ignore,
            Event::Shoot => Step::Ignore,
            Event::EndMatch { winner } => {
                let me = player_name();
                match winner {
                    Some(name) => {
                        if name == me {
                            Step::Finish(Verdict::Won)
                        } else {
                            Step::Finish(Verdict::Lost)
                        }
                    },
                    None => Step::Finish(Verdict::Draw),
                }
            },
        }
    }
}

} // verus!
