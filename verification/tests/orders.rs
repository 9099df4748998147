use joc::archive::entry_file_name;
use joc::bot::{orders_for, Order};
use joc::protocol::Hero;
use joc::simulator::Action;

#[test]
fn orders_for_each_kind_of_action() {
    let heroes = vec![
        Hero { id: 3, owner_id: 1, x: 7, y: 8, hp: 100, cooldown: 0 },
        Hero { id: 3, owner_id: 1, x: 1, y: 1, hp: 100, cooldown: 0 },
    ];
    let choices = vec![
        (1, Action::Move { x: 3, y: 4 }),
        (2, Action::Shoot { x: 5, y: 6 }),
        (3, Action::Wait),
        (9, Action::Wait),
    ];
    assert_eq!(
        orders_for(&choices, &heroes),
        vec![
            Order::Advance { hero_id: 1, x: 3, y: 4 },
            Order::Fire { hero_id: 2, x: 5, y: 6 },
            Order::Hold { hero_id: 3, x: 7, y: 8 },
        ]
    );
    assert_eq!(orders_for(&Vec::new(), &heroes), Vec::new());
}

#[test]
fn entry_names() {
    assert_eq!(entry_file_name("dir/file.txt"), Some("file.txt".to_string()));
    assert_eq!(entry_file_name("a/b/c"), Some("c".to_string()));
    assert_eq!(entry_file_name("dir/sub/"), None);
    assert_eq!(entry_file_name("/x"), Some("x".to_string()));
    assert_eq!(entry_file_name("d/ünï"), Some("ünï".to_string()));
}

use joc::bot::{player_name, Event, Session, Step, Verdict};
use joc::protocol::{GameState, Projectile, Wall};

fn reported(heroes: Vec<Hero>, walls: Vec<Wall>) -> GameState {
    GameState { heroes, projectiles: Vec::new(), walls }
}

#[test]
fn session_answers_simple_messages() {
    let mut s = Session::new();
    assert_eq!((s.my_player_id, s.map_width, s.map_height), (0, 51, 90));
    assert!(matches!(s.on_event(Event::Hello), Step::SendLogin));
    assert!(matches!(s.on_event(Event::Login), Step::Unexpected));
    assert!(matches!(s.on_event(Event::Error { fatal: false }), Step::ReportError { stop: false }));
    assert!(matches!(s.on_event(Event::Error { fatal: true }), Step::ReportError { stop: true }));
    assert!(matches!(s.on_event(Event::Ready), Step::SendPractice));
    assert!(matches!(s.on_event(Event::Challenge), Step::NoteChallenge));
    assert!(matches!(s.on_event(Event::Practice), Step::NotePractice));
    assert!(matches!(s.on_event(Event::Move), Step::Ignore));
    assert!(matches!(s.on_event(Event::Shoot), Step::Ignore));
    assert_eq!((s.my_player_id, s.map_width, s.map_height), (0, 51, 90));
    assert_eq!(player_name(), "vladChiper");
}

#[test]
fn session_starts_a_match() {
    let mut s = Session::new();
    let heroes = vec![
        Hero { id: 1, owner_id: 0, x: 1, y: 1, hp: 100, cooldown: 0 },
        Hero { id: 2, owner_id: 5, x: 2, y: 3, hp: 100, cooldown: 0 },
        Hero { id: 3, owner_id: 6, x: 4, y: 4, hp: 100, cooldown: 0 },
        Hero { id: 2, owner_id: 5, x: 7, y: 7, hp: 100, cooldown: 0 },
    ];
    let step = s.on_event(Event::StartMatch {
        your_player_id: 5,
        width: 4,
        height: 3,
        state: reported(heroes, vec![Wall { x: 0, y: 0 }]),
    });
    assert!(matches!(step, Step::MatchStarted));
    assert_eq!((s.my_player_id, s.map_width, s.map_height), (5, 4, 3));
    assert_eq!(s.world_grid, vec![vec![1, 1, 0], vec![1, 1, 0], vec![0, 0, 0], vec![0, 0, 0]]);
    // the heroes not owned by the player id held before the match (0)
    assert_eq!(s.last_known_enemies.len(), 2);
    assert_eq!(s.last_known_enemies[&2], (7, 7));
    assert_eq!(s.last_known_enemies[&3], (4, 4));
}

#[test]
fn session_plans_a_turn() {
    let mut s = Session::new();
    s.on_event(Event::StartMatch { your_player_id: 5, width: 6, height: 6, state: reported(Vec::new(), Vec::new()) });
    let state = GameState {
        heroes: vec![
            Hero { id: 1, owner_id: 5, x: 2, y: 2, hp: 100, cooldown: 0 },
            Hero { id: 2, owner_id: 6, x: 4, y: 4, hp: 50, cooldown: 1 },
        ],
        projectiles: vec![Projectile { owner_id: 6, origin_x: 4, origin_y: 4, x: 3, y: 3, ttl: 2 }],
        walls: Vec::new(),
    };
    match s.on_event(Event::StartTurn { state }) {
        Step::PlanTurn(sim) => {
            assert_eq!(sim.my_player_id, 5);
            assert_eq!((sim.map_width, sim.map_height), (6, 6));
            assert_eq!(sim.my_heroes.iter().map(|h| h.id).collect::<Vec<_>>(), vec![1]);
            assert_eq!(sim.enemy_heroes.iter().map(|h| h.id).collect::<Vec<_>>(), vec![2]);
            assert_eq!(sim.projectiles.len(), 1);
            assert_eq!((sim.projectiles[0].aim_x, sim.projectiles[0].aim_y), (3, 3));
            assert_eq!(sim.grid, vec![vec![0; 6]; 6]);
        }
        _ => panic!("a turn is planned"),
    }
}

#[test]
fn session_judges_the_end() {
    let mut s = Session::new();
    assert!(matches!(s.on_event(Event::EndMatch { winner: Some("vladChiper".to_string()) }), Step::Finish(Verdict::Won)));
    assert!(matches!(s.on_event(Event::EndMatch { winner: Some("someone".to_string()) }), Step::Finish(Verdict::Lost)));
    assert!(matches!(s.on_event(Event::EndMatch { winner: None }), Step::Finish(Verdict::Draw)));
}
