use joc::mcts::get_team_actions;
use joc::protocol::{GameState, Hero, Projectile, Wall};
use joc::simulator::{Action, SimHero, SimProjectile, SimState};
use joc::utils::wall_grid;
use std::collections::HashMap;

fn hero(id: i32, owner_id: i32, x: i32, y: i32, hp: i32, cooldown: i32) -> SimHero {
    SimHero { id, owner_id, x, y, hp, cooldown }
}

fn arena(mine: Vec<SimHero>, theirs: Vec<SimHero>, walls: Vec<Wall>) -> SimState {
    SimState {
        my_player_id: 1,
        my_heroes: mine,
        enemy_heroes: theirs,
        projectiles: Vec::new(),
        grid: wall_grid(&walls, 20, 20),
        map_width: 20,
        map_height: 20,
    }
}

fn acts(list: &[(i32, Action)]) -> HashMap<i32, Action> {
    list.iter().cloned().collect()
}

fn pos(h: &SimHero) -> (i32, i32) {
    (h.x, h.y)
}

#[test]
fn from_state_splits_teams() {
    let state = GameState {
        heroes: vec![
            Hero { id: 1, owner_id: 7, x: 1, y: 2, hp: 100, cooldown: 0 },
            Hero { id: 2, owner_id: 8, x: 3, y: 4, hp: 90, cooldown: 1 },
            Hero { id: 3, owner_id: 7, x: 5, y: 6, hp: 80, cooldown: 2 },
        ],
        projectiles: vec![Projectile { owner_id: 8, origin_x: 0, origin_y: 0, x: 9, y: 9, ttl: 3 }],
        walls: Vec::new(),
    };
    let grid = vec![vec![0, 1], vec![1, 0]];
    let s = SimState::from_state(&state, &grid, 7, 30, 40);
    assert_eq!(s.my_player_id, 7);
    assert_eq!(s.my_heroes.iter().map(|h| h.id).collect::<Vec<_>>(), vec![1, 3]);
    assert_eq!(s.enemy_heroes.iter().map(|h| h.id).collect::<Vec<_>>(), vec![2]);
    assert_eq!(s.enemy_heroes[0].hp, 90);
    assert_eq!(s.my_heroes[1].cooldown, 2);
    assert_eq!(s.my_heroes.len() + s.enemy_heroes.len(), state.heroes.len());
    assert_eq!(s.projectiles.len(), 1);
    let p = &s.projectiles[0];
    assert_eq!((p.owner_id, p.origin_x, p.origin_y, p.aim_x, p.aim_y, p.ttl, p.steps_taken), (8, 0, 0, 9, 9, 3, 0));
    assert_eq!(s.grid, grid);
    assert_eq!((s.map_width, s.map_height), (30, 40));
}

#[test]
fn actions_of_a_dead_hero() {
    let s = arena(vec![hero(1, 1, 5, 5, 0, 0)], vec![hero(2, 2, 12, 5, 100, 0)], Vec::new());
    assert_eq!(s.get_possible_actions(&s.my_heroes[0]), vec![Action::Wait]);
}

#[test]
fn actions_in_the_open() {
    let s = arena(
        vec![hero(1, 1, 5, 5, 100, 0)],
        vec![hero(2, 2, 12, 5, 100, 0), hero(3, 2, 5, 12, 0, 0)],
        Vec::new(),
    );
    let a = s.get_possible_actions(&s.my_heroes[0]);
    assert_eq!(
        a,
        vec![
            Action::Wait,
            Action::Move { x: 5, y: 8 },
            Action::Move { x: 5, y: 2 },
            Action::Move { x: 8, y: 5 },
            Action::Move { x: 2, y: 5 },
            Action::Move { x: 8, y: 8 },
            Action::Move { x: 8, y: 2 },
            Action::Move { x: 2, y: 8 },
            Action::Move { x: 2, y: 2 },
            Action::Shoot { x: 12, y: 5 },
        ]
    );
}

#[test]
fn actions_in_a_corner_while_reloading() {
    let s = arena(vec![hero(1, 1, 1, 1, 100, 2)], vec![hero(2, 2, 12, 5, 100, 0)], Vec::new());
    let a = s.get_possible_actions(&s.my_heroes[0]);
    assert_eq!(
        a,
        vec![Action::Wait, Action::Move { x: 1, y: 4 }, Action::Move { x: 4, y: 1 }, Action::Move { x: 4, y: 4 }]
    );
}

#[test]
fn no_shot_through_a_wall() {
    let s = arena(vec![hero(1, 1, 3, 10, 100, 0)], vec![hero(2, 2, 16, 10, 100, 0)], vec![Wall { x: 9, y: 10 }]);
    let a = s.get_possible_actions(&s.my_heroes[0]);
    assert!(!a.contains(&Action::Shoot { x: 16, y: 10 }));
    let b = s.get_possible_actions(&s.enemy_heroes[0]);
    assert!(!b.contains(&Action::Shoot { x: 3, y: 10 }));
}

#[test]
fn move_three_cells() {
    let mut s = arena(vec![hero(1, 1, 5, 5, 100, 0)], Vec::new(), Vec::new());
    s.apply_turn(&acts(&[(1, Action::Move { x: 10, y: 5 })]), &HashMap::new());
    assert_eq!(pos(&s.my_heroes[0]), (8, 5));
    s.apply_turn(&acts(&[(1, Action::Move { x: 0, y: 0 })]), &HashMap::new());
    assert_eq!(pos(&s.my_heroes[0]), (5, 2));
}

#[test]
fn move_inside_own_block_does_nothing() {
    let mut s = arena(vec![hero(1, 1, 5, 5, 100, 0)], Vec::new(), Vec::new());
    s.apply_turn(&acts(&[(1, Action::Move { x: 6, y: 4 })]), &HashMap::new());
    assert_eq!(pos(&s.my_heroes[0]), (5, 5));
}

#[test]
fn move_blocked_by_border_and_walls() {
    let mut s = arena(vec![hero(1, 1, 2, 5, 100, 0)], Vec::new(), vec![Wall { x: 9, y: 5 }]);
    s.apply_turn(&acts(&[(1, Action::Move { x: 0, y: 5 })]), &HashMap::new());
    assert_eq!(pos(&s.my_heroes[0]), (2, 5));
    s.my_heroes[0].x = 5;
    s.apply_turn(&acts(&[(1, Action::Move { x: 15, y: 5 })]), &HashMap::new());
    assert_eq!(pos(&s.my_heroes[0]), (5, 5));
}

#[test]
fn dead_heroes_do_not_move() {
    let mut s = arena(vec![hero(1, 1, 5, 5, -5, 0)], Vec::new(), Vec::new());
    s.apply_turn(&acts(&[(1, Action::Move { x: 10, y: 5 })]), &HashMap::new());
    assert_eq!(pos(&s.my_heroes[0]), (5, 5));
    assert_eq!(s.my_heroes[0].hp, -5);
}

#[test]
fn enemy_heroes_follow_the_enemy_map() {
    let mut s = arena(vec![hero(1, 1, 5, 5, 100, 0)], vec![hero(1, 2, 12, 12, 100, 0)], Vec::new());
    s.apply_turn(&acts(&[(1, Action::Move { x: 10, y: 5 })]), &acts(&[(1, Action::Move { x: 12, y: 0 })]));
    assert_eq!(pos(&s.my_heroes[0]), (8, 5));
    assert_eq!(pos(&s.enemy_heroes[0]), (12, 9));
}

#[test]
fn shot_hits_and_reloads() {
    let mut s = arena(vec![hero(1, 1, 5, 5, 100, 0)], vec![hero(2, 2, 12, 5, 100, 0)], Vec::new());
    s.apply_turn(&acts(&[(1, Action::Shoot { x: 12, y: 5 })]), &HashMap::new());
    assert_eq!(s.enemy_heroes[0].hp, -900);
    assert_eq!(s.my_heroes[0].cooldown, 4);
    assert!(s.projectiles.is_empty());
    s.apply_turn(&HashMap::new(), &HashMap::new());
    assert_eq!(s.my_heroes[0].cooldown, 3);
}

#[test]
fn shot_while_reloading_is_lost() {
    let mut s = arena(vec![hero(1, 1, 5, 5, 100, 2)], vec![hero(2, 2, 12, 5, 100, 0)], Vec::new());
    s.apply_turn(&acts(&[(1, Action::Shoot { x: 12, y: 5 })]), &HashMap::new());
    assert!(s.projectiles.is_empty());
    assert_eq!(s.enemy_heroes[0].hp, 100);
    assert_eq!(s.my_heroes[0].cooldown, 1);
}

#[test]
fn both_sides_shoot_each_other() {
    let mut s = arena(vec![hero(1, 1, 5, 5, 100, 0)], vec![hero(2, 2, 12, 5, 100, 0)], Vec::new());
    s.apply_turn(&acts(&[(1, Action::Shoot { x: 12, y: 5 })]), &acts(&[(2, Action::Shoot { x: 5, y: 5 })]));
    assert_eq!(s.enemy_heroes[0].hp, -900);
    assert_eq!(s.my_heroes[0].hp, -900);
    assert_eq!(s.my_heroes[0].cooldown, 4);
    assert_eq!(s.enemy_heroes[0].cooldown, 4);
    assert!(s.projectiles.is_empty());
}

#[test]
fn projectile_flies_six_points_a_turn_and_lands() {
    let mut s = arena(vec![hero(1, 1, 2, 10, 100, 0)], Vec::new(), Vec::new());
    s.apply_turn(&acts(&[(1, Action::Shoot { x: 19, y: 10 })]), &HashMap::new());
    assert_eq!(s.projectiles.len(), 1);
    assert_eq!((s.projectiles[0].steps_taken, s.projectiles[0].ttl), (6, 3));
    assert_eq!((s.projectiles[0].origin_x, s.projectiles[0].aim_x, s.projectiles[0].owner_id), (2, 19, 1));
    s.apply_turn(&HashMap::new(), &HashMap::new());
    assert_eq!((s.projectiles[0].steps_taken, s.projectiles[0].ttl), (12, 2));
    s.apply_turn(&HashMap::new(), &HashMap::new());
    assert!(s.projectiles.is_empty());
}

#[test]
fn projectile_runs_out_of_time() {
    let mut s = arena(Vec::new(), Vec::new(), Vec::new());
    s.projectiles.push(SimProjectile { owner_id: 1, origin_x: 0, origin_y: 0, aim_x: 19, aim_y: 19, ttl: 0, steps_taken: 0 });
    s.projectiles.push(SimProjectile { owner_id: 1, origin_x: 0, origin_y: 0, aim_x: 19, aim_y: 19, ttl: 1, steps_taken: 0 });
    s.apply_turn(&HashMap::new(), &HashMap::new());
    assert_eq!(s.projectiles.len(), 1);
    assert_eq!((s.projectiles[0].ttl, s.projectiles[0].steps_taken), (0, 6));
}

#[test]
fn projectile_stops_at_a_wall() {
    let mut s = arena(vec![hero(1, 1, 2, 10, 100, 0)], vec![hero(2, 2, 16, 10, 100, 0)], vec![Wall { x: 8, y: 10 }]);
    s.apply_turn(&acts(&[(1, Action::Shoot { x: 16, y: 10 })]), &HashMap::new());
    assert!(s.projectiles.is_empty());
    assert_eq!(s.enemy_heroes[0].hp, 100);
}

#[test]
fn projectile_stops_off_the_field() {
    let mut s = arena(vec![hero(1, 1, 17, 10, 100, 0)], Vec::new(), Vec::new());
    s.apply_turn(&acts(&[(1, Action::Shoot { x: 30, y: 10 })]), &HashMap::new());
    assert!(s.projectiles.is_empty());
}

#[test]
fn projectile_hits_the_lowest_id_on_a_tie() {
    let mut s = arena(
        vec![hero(1, 1, 4, 5, 100, 0)],
        vec![hero(7, 2, 10, 4, 100, 0), hero(3, 2, 10, 6, 100, 0), hero(3, 2, 10, 5, 100, 0)],
        Vec::new(),
    );
    s.apply_turn(&acts(&[(1, Action::Shoot { x: 10, y: 5 })]), &HashMap::new());
    assert_eq!(s.enemy_heroes[0].hp, 100);
    assert_eq!(s.enemy_heroes[1].hp, -900);
    assert_eq!(s.enemy_heroes[2].hp, 100);
}

#[test]
fn projectile_passes_over_the_dead() {
    let mut s = arena(
        vec![hero(1, 1, 4, 5, 100, 0)],
        vec![hero(2, 2, 7, 5, -900, 0), hero(3, 2, 9, 5, 100, 0)],
        Vec::new(),
    );
    s.apply_turn(&acts(&[(1, Action::Shoot { x: 12, y: 5 })]), &HashMap::new());
    assert_eq!(s.enemy_heroes[0].hp, -900);
    assert_eq!(s.enemy_heroes[1].hp, -900);
}

#[test]
fn turn_keeps_rosters() {
    let mut s = arena(
        vec![hero(1, 1, 4, 5, 100, 0), hero(4, 1, 15, 15, 100, 3)],
        vec![hero(2, 2, 9, 5, 100, 0), hero(3, 2, 4, 15, 0, 0)],
        vec![Wall { x: 10, y: 10 }],
    );
    let before = s.clone();
    s.apply_turn(
        &acts(&[(1, Action::Shoot { x: 9, y: 5 }), (4, Action::Move { x: 0, y: 0 })]),
        &acts(&[(2, Action::Move { x: 9, y: 0 }), (3, Action::Move { x: 4, y: 19 })]),
    );
    for (b, a) in before.my_heroes.iter().chain(before.enemy_heroes.iter()).zip(s.my_heroes.iter().chain(s.enemy_heroes.iter())) {
        assert_eq!((a.id, a.owner_id), (b.id, b.owner_id));
        assert!(a.hp <= b.hp);
        assert!(a.cooldown >= 0 && a.cooldown <= 4);
        assert!((a.x - b.x).abs() <= 3 && (a.y - b.y).abs() <= 3);
    }
    assert_eq!(pos(&s.enemy_heroes[1]), (4, 15));
    assert_eq!(s.grid, before.grid);
}

#[test]
fn team_actions_without_heroes() {
    let s = arena(Vec::new(), Vec::new(), Vec::new());
    assert_eq!(get_team_actions(&s, true), vec![Vec::<(i32, Action)>::new()]);
    assert_eq!(get_team_actions(&s, false), vec![Vec::<(i32, Action)>::new()]);
}

#[test]
fn team_actions_of_one_hero() {
    let s = arena(vec![hero(1, 1, 1, 1, 100, 2)], Vec::new(), Vec::new());
    assert_eq!(
        get_team_actions(&s, true),
        vec![
            vec![(1, Action::Wait)],
            vec![(1, Action::Move { x: 1, y: 4 })],
            vec![(1, Action::Move { x: 4, y: 1 })],
            vec![(1, Action::Move { x: 4, y: 4 })],
        ]
    );
}

#[test]
fn team_actions_of_two_heroes() {
    let s = arena(Vec::new(), vec![hero(5, 2, 1, 1, 100, 2), hero(6, 2, 9, 9, 0, 0), hero(7, 2, 9, 9, 100, 0)], Vec::new());
    let opts = get_team_actions(&s, false);
    assert_eq!(
        opts,
        vec![
            vec![(5, Action::Wait), (6, Action::Wait)],
            vec![(5, Action::Move { x: 1, y: 4 }), (6, Action::Wait)],
            vec![(5, Action::Move { x: 4, y: 1 }), (6, Action::Wait)],
            vec![(5, Action::Move { x: 4, y: 4 }), (6, Action::Wait)],
        ]
    );
    let t = arena(vec![hero(1, 1, 5, 5, 100, 1), hero(2, 1, 14, 14, 100, 1)], Vec::new(), Vec::new());
    let a0 = t.get_possible_actions(&t.my_heroes[0]).len();
    let a1 = t.get_possible_actions(&t.my_heroes[1]).len();
    assert_eq!(get_team_actions(&t, true).len(), a0 * a1);
}

#[test]
fn quiet_turn_only_cools_down() {
    let mut s = arena(vec![hero(1, 1, 5, 5, 100, 3)], vec![hero(2, 2, 12, 12, 40, 0)], Vec::new());
    s.apply_turn(&HashMap::new(), &HashMap::new());
    assert_eq!((pos(&s.my_heroes[0]), s.my_heroes[0].hp, s.my_heroes[0].cooldown), ((5, 5), 100, 2));
    assert_eq!((pos(&s.enemy_heroes[0]), s.enemy_heroes[0].hp, s.enemy_heroes[0].cooldown), ((12, 12), 40, 0));
    assert!(s.projectiles.is_empty());
}

#[test]
fn no_friendly_fire() {
    // my projectile passes over my own hero and hits the enemy behind it
    let mut s = arena(vec![hero(1, 1, 4, 5, 100, 0), hero(4, 1, 7, 5, 100, 0)], vec![hero(2, 2, 10, 5, 1500, 0)], Vec::new());
    s.apply_turn(&acts(&[(1, Action::Shoot { x: 10, y: 5 })]), &HashMap::new());
    assert_eq!(s.my_heroes[1].hp, 100);
    assert_eq!(s.enemy_heroes[0].hp, 500);
    assert_eq!((s.my_heroes[0].hp - 100) % 1000, 0);
}
