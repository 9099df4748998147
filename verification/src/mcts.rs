use crate::simulator::{possible_actions, Action, SimState};
use crate::utils::{cells, grid_ok};
use vstd::prelude::*;

verus! {

/// The joint moves of a team of one hero: one per action of that hero.
pub open spec fn single_options(id: i32, acts: Seq<Action>) -> Seq<Seq<(i32, Action)>> {
    acts.map_values(|a: Action| seq![(id, a)])
}

/// The joint moves of two heroes: every pair of an action of the first and an
/// action of the second, ordered by the first hero's action, then the
/// second's.
pub open spec fn pair_options(id0: i32, acts0: Seq<Action>, id1: i32, acts1: Seq<Action>) -> Seq<
    Seq<(i32, Action)>,
>
    decreases acts0.len(),
{
    if acts0.len() == 0 {
        Seq::empty()
    } else {
        pair_options(id0, acts0.drop_last(), id1, acts1) + acts1.map_values(
            |b: Action| seq![(id0, acts0.last()), (id1, b)],
        )
    }
}

/// The joint moves of a team (mine or the enemy's): a single empty move for
/// a team without heroes; otherwise the combinations of the possible actions
/// of its first hero and, if there is one, its second.
pub open spec fn team_options(s: SimState, is_my_team: bool) -> Seq<Seq<(i32, Action)>> {
    let hs = if is_my_team {
        s.my_heroes@
    } else {
        s.enemy_heroes@
    };
    if hs.len() == 0 {
        seq![Seq::empty()]
    } else if hs.len() == 1 {
        single_options(hs[0].id, possible_actions(s, hs[0]))
    } else {
        pair_options(hs[0].id, possible_actions(s, hs[0]), hs[1].id, possible_actions(s, hs[1]))
    }
}

/// The contents of a list of joint moves.
pub open spec fn options_view(v: Seq<Vec<(i32, Action)>>) -> Seq<Seq<(i32, Action)>> {
    v.map_values(|o: Vec<(i32, Action)>| o@)
}

/// All joint moves of a team (mine or the enemy's): each is a list of
/// (hero id, action) for the team's first hero and, if there is one, its
/// second; a team without heroes has one joint move, the empty one.
pub fn get_team_actions(state: &SimState, is_my_team: bool) -> (r: Vec<Vec<(i32, Action)>>)
    requires
        grid_ok(cells(&state.grid)),
    ensures
        options_view(r@) == team_options(*state, is_my_team),
{
    let heroes = if is_my_team {
        &state.my_heroes
    } else {
        &state.enemy_heroes
    };
    let mut result: Vec<Vec<(i32, Action)>> = Vec::new();
    if heroes.len() == 0 {
        result.push(Vec::new());
        assert(options_view(result@) =~= seq![Seq::<(i32, Action)>::empty()]);
        return result;
    }
    let id0 = heroes[0].id;
    let acts0 = state.get_possible_actions(&heroes[0]);
    if heroes.len() == 1 {
        let mut k: usize = 0;
        while k < acts0.len()
            invariant
                k <= acts0.len(),
                options_view(result@) =~= single_options(id0, acts0@.take(k as int)),
            decreases acts0.len() - k,
        {
            let mut one: Vec<(i32, Action)> = Vec::new();
            one.push((id0, acts0[k]));
            assert(one@ =~= seq![(id0, acts0@[k as int])]);
            let ghost prev = result@;
            result.push(one);
            assert(options_view(result@) =~= options_view(prev).push(one@));
            assert(acts0@.take(k + 1) =~= acts0@.take(k as int).push(acts0@[k as int]));
            assert(single_options(id0, acts0@.take(k + 1)) =~= single_options(id0, acts0@.take(k as int)).push(one@));
            k = k + 1;
        }
        assert(acts0@.take(acts0.len() as int) =~= acts0@);
    } else {
        let id1 = heroes[1].id;
        let acts1 = state.get_possible_actions(&heroes[1]);
        let mut k: usize = 0;
        while k < acts0.len()
            invariant
                k <= acts0.len(),
                options_view(result@) =~= pair_options(id0, acts0@.take(k as int), id1, acts1@),
            decreases acts0.len() - k,
        {
            assert(acts0@.take(k + 1).drop_last() =~= acts0@.take(k as int));
            let ghost before = options_view(result@);
            let mut j: usize = 0;
            while j < acts1.len()
                invariant
                    k < acts0.len(),
                    j <= acts1.len(),
                    options_view(result@) =~= before + acts1@.take(j as int).map_values(
                        |b: Action| seq![(id0, acts0@[k as int]), (id1, b)],
                    ),
                decreases acts1.len() - j,
            {
                let mut two: Vec<(i32, Action)> = Vec::new();
                two.push((id0, acts0[k]));
                two.push((id1, acts1[j]));
                assert(two@ =~= seq![(id0, acts0@[k as int]), (id1, acts1@[j as int])]);
                let ghost prev = result@;
                result.push(two);
                assert(options_view(result@) =~= options_view(prev).push(two@));
                assert(acts1@.take(j + 1) =~= acts1@.take(j as int).push(acts1@[j as int]));
                assert(acts1@.take(j + 1).map_values(
                    |b: Action| seq![(id0, acts0@[k as int]), (id1, b)],
                ) =~= acts1@.take(j as int).map_values(
                    |b: Action| seq![(id0, acts0@[k as int]), (id1, b)],
                ).push(two@));
                j = j + 1;
            }
            assert(acts1@.take(acts1.len() as int) =~= acts1@);
            k = k + 1;
        }
        assert(acts0@.take(acts0.len() as int) =~= acts0@);
    }
    result
}

/// Every joint move of two heroes pairs an action of the first with one of
/// the second, and there are as many as the product of their counts.
pub proof fn lemma_pair_options(id0: i32, acts0: Seq<Action>, id1: i32, acts1: Seq<Action>)
    ensures
        pair_options(id0, acts0, id1, acts1).len() == acts0.len() * acts1.len(),
        forall|k: int|
            0 <= k < pair_options(id0, acts0, id1, acts1).len() ==> {
                let o = #[trigger] pair_options(id0, acts0, id1, acts1)[k];
                &&& o.len() == 2
                &&& o[0].0 == id0
                &&& o[1].0 == id1
                &&& acts0.contains(o[0].1)
                &&& acts1.contains(o[1].1)
            },
    decreases acts0.len(),
{
    if acts0.len() > 0 {
        let prev = pair_options(id0, acts0.drop_last(), id1, acts1);
        let row = acts1.map_values(|b: Action| seq![(id0, acts0.last()), (id1, b)]);
        lemma_pair_options(id0, acts0.drop_last(), id1, acts1);
        assert(acts0.len() * acts1.len() == (acts0.len() - 1) * acts1.len() + acts1.len())
            by (nonlinear_arith);
        let all = pair_options(id0, acts0, id1, acts1);
        assert forall|k: int| 0 <= k < all.len() implies {
            let o = #[trigger] all[k];
            &&& o.len() == 2
            &&& o[0].0 == id0
            &&& o[1].0 == id1
            &&& acts0.contains(o[0].1)
            &&& acts1.contains(o[1].1)
        } by {
            if k < prev.len() {
                assert(all[k] == prev[k]);
                let o = prev[k];
                let t = choose|t: int| 0 <= t < acts0.drop_last().len() && acts0.drop_last()[t] == o[0].1;
                assert(acts0[t] == o[0].1);
            } else {
                let j = k - prev.len();
                assert(all[k] == row[j]);
                assert(acts0[acts0.len() - 1] == acts0.last());
                assert(acts1[j] == row[j][1].1);
            }
        }
    }
}

/// Law of the joint moves of a team: a team without heroes has the one
/// empty joint move; a team of one hero has one joint move per action of
/// that hero; otherwise one per pair of actions of its first two heroes.
/// Each joint move names those heroes in order, each with one of its
/// possible actions.
pub proof fn lemma_team_options(s: SimState, is_my_team: bool)
    ensures
        ({
            let hs = if is_my_team {
                s.my_heroes@
            } else {
                s.enemy_heroes@
            };
            let opts = team_options(s, is_my_team);
            &&& hs.len() == 0 ==> opts.len() == 1 && opts[0].len() == 0
            &&& hs.len() == 1 ==> {
                &&& opts.len() == possible_actions(s, hs[0]).len()
                &&& forall|k: int|
                    0 <= k < opts.len() ==> (#[trigger] opts[k]).len() == 1 && opts[k][0].0 == hs[0].id
                        && possible_actions(s, hs[0]).contains(opts[k][0].1)
            }
            &&& hs.len() >= 2 ==> {
                &&& opts.len() == possible_actions(s, hs[0]).len() * possible_actions(s, hs[1]).len()
                &&& forall|k: int|
                    0 <= k < opts.len() ==> {
                        let o = #[trigger] opts[k];
                        &&& o.len() == 2
                        &&& o[0].0 == hs[0].id
                        &&& o[1].0 == hs[1].id
                        &&& possible_actions(s, hs[0]).contains(o[0].1)
                        &&& possible_actions(s, hs[1]).contains(o[1].1)
                    }
            }
        }),
{
    let hs = if is_my_team {
        s.my_heroes@
    } else {
        s.enemy_heroes@
    };
    if hs.len() == 1 {
        let acts = possible_actions(s, hs[0]);
        let opts = team_options(s, is_my_team);
        assert forall|k: int| 0 <= k < opts.len() implies (#[trigger] opts[k]).len() == 1 && opts[k][0].0
            == hs[0].id && acts.contains(opts[k][0].1) by {
            assert(opts[k] == seq![(hs[0].id, acts[k])]);
        }
    } else if hs.len() >= 2 {
        lemma_pair_options(hs[0].id, possible_actions(s, hs[0]), hs[1].id, possible_actions(s, hs[1]));
    }
}

/// The joint move at position `i * acts1.len() + j` pairs action `i` of the
/// first hero with action `j` of the second.
proof fn lemma_pair_index(id0: i32, acts0: Seq<Action>, id1: i32, acts1: Seq<Action>, i: int, j: int)
    requires
        0 <= i < acts0.len(),
        0 <= j < acts1.len(),
    ensures
        pair_options(id0, acts0, id1, acts1).len() == acts0.len() * acts1.len(),
        0 <= i * acts1.len() + j < acts0.len() * acts1.len(),
        pair_options(id0, acts0, id1, acts1)[i * acts1.len() + j] == seq![(id0, acts0[i]), (id1, acts1[j])],
    decreases acts0.len(),
{
    let n0 = acts0.len() as int;
    let n1 = acts1.len() as int;
    lemma_pair_options(id0, acts0, id1, acts1);
    lemma_pair_options(id0, acts0.drop_last(), id1, acts1);
    assert(0 <= i * n1 + j < n0 * n1) by (nonlinear_arith)
        requires
            0 <= i < n0,
            0 <= j < n1,
    ;
    let prev = pair_options(id0, acts0.drop_last(), id1, acts1);
    let all = pair_options(id0, acts0, id1, acts1);
    assert(prev.len() == (n0 - 1) * n1);
    if i < n0 - 1 {
        lemma_pair_index(id0, acts0.drop_last(), id1, acts1, i, j);
        assert(i * n1 + j < (n0 - 1) * n1) by (nonlinear_arith)
            requires
                0 <= i < n0 - 1,
                0 <= j < n1,
        ;
        assert(all[i * n1 + j] == prev[i * n1 + j]);
        assert(acts0.drop_last()[i] == acts0[i]);
    } else {
        assert(i * n1 + j == (n0 - 1) * n1 + j);
        assert(all[i * n1 + j] == acts1.map_values(
            |b: Action| seq![(id0, acts0.last()), (id1, b)],
        )[j]);
    }
}

/// Law of the joint moves of a team: with no hero, the one empty joint move;
/// with one hero, one joint move per action of that hero, in the order of its
/// actions; with two or more, every pair of an action of the first hero and
/// an action of the second, each exactly once, ordered by the first hero's
/// action and then the second's (the joint move pairing actions `i` and `j`
/// stands at position `i * m + j`, `m` being the number of actions of the
/// second hero).
pub proof fn lemma_team_options_complete(s: SimState, is_my_team: bool)
    ensures
        ({
            let hs = if is_my_team {
                s.my_heroes@
            } else {
                s.enemy_heroes@
            };
            let opts = team_options(s, is_my_team);
            &&& hs.len() == 0 ==> opts == seq![Seq::<(i32, Action)>::empty()]
            &&& hs.len() == 1 ==> {
                &&& opts.len() == possible_actions(s, hs[0]).len()
                &&& forall|k: int|
                    0 <= k < opts.len() ==> #[trigger] opts[k] == seq![
                        (hs[0].id, possible_actions(s, hs[0])[k]),
                    ]
            }
            &&& hs.len() >= 2 ==> {
                let a0 = possible_actions(s, hs[0]);
                let a1 = possible_actions(s, hs[1]);
                &&& opts.len() == a0.len() * a1.len()
                &&& forall|i: int, j: int|
                    0 <= i < a0.len() && 0 <= j < a1.len() ==> #[trigger] opts[i * a1.len() + j] == seq![
                        (hs[0].id, #[trigger] a0[i]),
                        (hs[1].id, a1[j]),
                    ]
                &&& forall|x: Action, y: Action|
                    #![trigger a0.contains(x), a1.contains(y)]
                    a0.contains(x) && a1.contains(y) ==> opts.contains(seq![(hs[0].id, x), (hs[1].id, y)])
            }
        }),
{
    let hs = if is_my_team {
        s.my_heroes@
    } else {
        s.enemy_heroes@
    };
    let opts = team_options(s, is_my_team);
    if hs.len() == 1 {
        let acts = possible_actions(s, hs[0]);
        assert forall|k: int| 0 <= k < opts.len() implies #[trigger] opts[k] == seq![(hs[0].id, acts[k])] by {}
    } else if hs.len() >= 2 {
        let a0 = possible_actions(s, hs[0]);
        let a1 = possible_actions(s, hs[1]);
        lemma_pair_options(hs[0].id, a0, hs[1].id, a1);
        assert forall|i: int, j: int| 0 <= i < a0.len() && 0 <= j < a1.len() implies #[trigger] opts[i * a1.len() + j] == seq![(hs[0].id, #[trigger] a0[i]), (hs[1].id, a1[j])] by {
            lemma_pair_index(hs[0].id, a0, hs[1].id, a1, i, j);
        }
        assert forall|x: Action, y: Action|
            #![trigger a0.contains(x), a1.contains(y)]
            a0.contains(x) && a1.contains(y) implies opts.contains(seq![(hs[0].id, x), (hs[1].id, y)]) by {
            let i = choose|i: int| 0 <= i < a0.len() && a0[i] == x;
            let j = choose|j: int| 0 <= j < a1.len() && a1[j] == y;
            lemma_pair_index(hs[0].id, a0, hs[1].id, a1, i, j);
            assert(opts[i * a1.len() + j] == seq![(hs[0].id, x), (hs[1].id, y)]);
        }
    }
}

} // verus!
