use joc::labyrinth::{maze_tiles, solve_labyrinth, GridCell, Labyrinth, Position, Tile};

fn cell(kind: &str, x: u32, y: u32) -> GridCell {
    GridCell { cell_type: kind.to_string(), x, y }
}

fn p(x: u32, y: u32) -> Position {
    Position { x, y }
}

fn assert_valid_route(lab: &Labyrinth, path: &[Position]) {
    assert_eq!(path[0], lab.start);
    assert_eq!(*path.last().unwrap(), lab.goal);
    for w in path.windows(2) {
        let dx = (w[0].x as i64 - w[1].x as i64).abs();
        let dy = (w[0].y as i64 - w[1].y as i64).abs();
        assert_eq!(dx + dy, 1);
        assert!(w[1].x < lab.width && w[1].y < lab.height);
        assert!(!lab.grid.iter().any(|c| c.cell_type == "wall" && c.x == w[1].x && c.y == w[1].y));
    }
    for i in 0..path.len() {
        for j in i + 1..path.len() {
            assert_ne!(path[i], path[j]);
        }
    }
}

#[test]
fn route_around_a_wall() {
    let lab = Labyrinth {
        width: 5,
        height: 5,
        start: p(0, 0),
        goal: p(4, 0),
        grid: vec![cell("wall", 1, 0), cell("wall", 1, 1), cell("wall", 1, 2), cell("wall", 1, 3), cell("floor", 2, 2)],
    };
    let path = solve_labyrinth(&lab).unwrap();
    assert_eq!(path.len(), 13);
    assert_valid_route(&lab, &path);
}

#[test]
fn straight_route() {
    let lab = Labyrinth { width: 4, height: 1, start: p(0, 0), goal: p(3, 0), grid: Vec::new() };
    assert_eq!(solve_labyrinth(&lab), Some(vec![p(0, 0), p(1, 0), p(2, 0), p(3, 0)]));
}

#[test]
fn route_prefers_up_then_down_then_left_then_right() {
    let lab = Labyrinth { width: 2, height: 2, start: p(0, 0), goal: p(1, 1), grid: Vec::new() };
    assert_eq!(solve_labyrinth(&lab), Some(vec![p(0, 0), p(0, 1), p(1, 1)]));
}

#[test]
fn no_route_through_a_closed_wall() {
    let lab = Labyrinth {
        width: 3,
        height: 3,
        start: p(0, 0),
        goal: p(2, 2),
        grid: vec![cell("wall", 1, 0), cell("wall", 1, 1), cell("wall", 1, 2)],
    };
    assert_eq!(solve_labyrinth(&lab), None);
}

#[test]
fn goal_outside_the_labyrinth() {
    let lab = Labyrinth { width: 3, height: 3, start: p(0, 0), goal: p(5, 5), grid: Vec::new() };
    assert_eq!(solve_labyrinth(&lab), None);
}

#[test]
fn goal_on_a_wall() {
    let lab = Labyrinth { width: 3, height: 3, start: p(0, 0), goal: p(2, 2), grid: vec![cell("wall", 2, 2)] };
    assert_eq!(solve_labyrinth(&lab), None);
}

#[test]
fn start_is_goal() {
    let lab = Labyrinth { width: 1, height: 1, start: p(0, 0), goal: p(0, 0), grid: vec![cell("wall", 0, 0)] };
    assert_eq!(solve_labyrinth(&lab), Some(vec![p(0, 0)]));
}

#[test]
fn start_outside_next_to_the_labyrinth() {
    let lab = Labyrinth { width: 3, height: 3, start: p(3, 0), goal: p(0, 0), grid: Vec::new() };
    assert_eq!(solve_labyrinth(&lab), Some(vec![p(3, 0), p(2, 0), p(1, 0), p(0, 0)]));
}

#[test]
fn open_field_route_is_manhattan() {
    let lab = Labyrinth { width: 30, height: 20, start: p(2, 3), goal: p(25, 17), grid: vec![cell("door", 10, 10)] };
    let path = solve_labyrinth(&lab).unwrap();
    assert_eq!(path.len(), 23 + 14 + 1);
    assert_valid_route(&lab, &path);
}

#[test]
fn picture_of_a_route() {
    let lab = Labyrinth {
        width: 3,
        height: 2,
        start: p(0, 0),
        goal: p(2, 0),
        grid: vec![cell("floor", 1, 1), cell("wall", 0, 0), cell("wall", 2, 1)],
    };
    let route = vec![p(0, 0), p(1, 0), p(2, 0)];
    assert_eq!(
        maze_tiles(&lab, &route),
        vec![vec![Tile::Start, Tile::Route, Tile::Goal], vec![Tile::Open, Tile::Open, Tile::Wall]]
    );
}

#[test]
fn picture_shows_only_walls_as_walls() {
    let lab = Labyrinth { width: 3, height: 1, start: p(0, 0), goal: p(2, 0), grid: vec![cell("floor", 1, 0)] };
    assert_eq!(maze_tiles(&lab, &Vec::new()), vec![vec![Tile::Start, Tile::Open, Tile::Goal]]);
}

#[test]
fn first_route_goes_down_before_right() {
    let lab = Labyrinth { width: 3, height: 3, start: p(0, 0), goal: p(2, 2), grid: Vec::new() };
    assert_eq!(solve_labyrinth(&lab), Some(vec![p(0, 0), p(0, 1), p(0, 2), p(1, 2), p(2, 2)]));
    let back = Labyrinth { width: 3, height: 3, start: p(2, 2), goal: p(0, 0), grid: vec![cell("wall", 1, 1)] };
    assert_eq!(solve_labyrinth(&back), Some(vec![p(2, 2), p(2, 1), p(2, 0), p(1, 0), p(0, 0)]));
}
