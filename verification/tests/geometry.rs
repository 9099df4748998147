use joc::protocol::Wall;
use joc::utils::{can_stand_at, get_bresenham_line, get_random_valid_move, has_line_of_sight, wall_grid};

fn open_grid(width: usize, height: usize) -> Vec<Vec<i32>> {
    vec![vec![0; height]; width]
}

#[test]
fn line_shallow_slope() {
    assert_eq!(get_bresenham_line(0, 0, 3, 1), vec![(0, 0), (1, 0), (2, 1), (3, 1)]);
}

#[test]
fn line_single_point() {
    assert_eq!(get_bresenham_line(5, 5, 5, 5), vec![(5, 5)]);
}

#[test]
fn line_vertical_downwards() {
    assert_eq!(get_bresenham_line(0, 0, 0, -3), vec![(0, 0), (0, -1), (0, -2), (0, -3)]);
}

#[test]
fn line_diagonal() {
    assert_eq!(get_bresenham_line(0, 0, -2, 2), vec![(0, 0), (-1, 1), (-2, 2)]);
}

#[test]
fn line_near_the_largest_coordinates() {
    let max = i32::MAX;
    assert_eq!(get_bresenham_line(max - 2, 0, max, 1), vec![(max - 2, 0), (max - 1, 1), (max, 1)]);
    let min = i32::MIN;
    assert_eq!(get_bresenham_line(min, min, min + 1, min + 2), vec![(min, min), (min + 1, min + 1), (min + 1, min + 2)]);
}

#[test]
fn line_laws_on_a_steep_line() {
    let (x0, y0, x1, y1) = (1, 2, 7, -9);
    let path = get_bresenham_line(x0, y0, x1, y1);
    assert_eq!(path.len(), 12);
    assert_eq!(path[0], (x0, y0));
    assert_eq!(*path.last().unwrap(), (x1, y1));
    for w in path.windows(2) {
        assert!((w[0].0 - w[1].0).abs() <= 1 && (w[0].1 - w[1].1).abs() <= 1);
        assert_ne!(w[0], w[1]);
    }
    for p in &path[..path.len() - 1] {
        assert_ne!(*p, (x1, y1));
    }
}

#[test]
fn sight_blocked_by_wall() {
    let mut grid = open_grid(10, 10);
    grid[5][5] = 1;
    assert!(!has_line_of_sight(&grid, 2, 5, 8, 5));
    assert!(has_line_of_sight(&grid, 2, 6, 8, 6));
}

#[test]
fn sight_from_a_wall_is_blocked() {
    let mut grid = open_grid(4, 4);
    grid[0][0] = 1;
    assert!(!has_line_of_sight(&grid, 0, 0, 3, 3));
    assert!(!has_line_of_sight(&grid, 0, 0, 0, 0));
    assert!(has_line_of_sight(&grid, 1, 1, 1, 1));
}

#[test]
fn sight_ignores_cells_off_the_grid() {
    let grid = open_grid(4, 4);
    assert!(has_line_of_sight(&grid, -5, -5, 10, 2));
    assert!(has_line_of_sight(&Vec::new(), 0, 0, 3, 3));
}

#[test]
fn sight_agrees_with_the_line() {
    let mut grid = open_grid(12, 12);
    grid[4][7] = 1;
    grid[9][2] = 1;
    for &(x0, y0, x1, y1) in &[(0, 0, 11, 11), (1, 9, 10, 3), (4, 0, 4, 11), (0, 7, 11, 7), (2, 1, 11, 3)] {
        let through_wall = get_bresenham_line(x0, y0, x1, y1)
            .iter()
            .any(|&(x, y)| x >= 0 && y >= 0 && x < 12 && y < 12 && grid[x as usize][y as usize] == 1);
        assert_eq!(has_line_of_sight(&grid, x0, y0, x1, y1), !through_wall);
    }
}

#[test]
fn standing_room() {
    let mut grid = open_grid(5, 5);
    assert!(can_stand_at(&grid, 2, 2));
    assert!(can_stand_at(&grid, 1, 1));
    assert!(can_stand_at(&grid, 3, 3));
    assert!(!can_stand_at(&grid, 0, 2));
    assert!(!can_stand_at(&grid, 4, 2));
    assert!(!can_stand_at(&grid, i32::MIN, i32::MAX));
    grid[3][3] = 1;
    assert!(!can_stand_at(&grid, 2, 2));
    assert!(can_stand_at(&grid, 1, 1));
    assert!(!can_stand_at(&Vec::new(), 0, 0));
}

#[test]
fn random_move_with_one_choice() {
    // a 7x4 grid: from (1, 1) only the move three cells right fits
    let grid = open_grid(7, 4);
    for _ in 0..20 {
        assert_eq!(get_random_valid_move(&grid, 1, 1), (4, 1));
    }
}

#[test]
fn random_move_when_boxed_in() {
    let grid = open_grid(3, 3);
    assert_eq!(get_random_valid_move(&grid, 1, 1), (1, 1));
}

#[test]
fn random_move_among_several() {
    let grid = open_grid(11, 11);
    let allowed = [(5, 8), (5, 2), (8, 5), (2, 5), (8, 8), (8, 2), (2, 8), (2, 2)];
    for _ in 0..50 {
        let m = get_random_valid_move(&grid, 5, 5);
        assert!(allowed.contains(&m));
    }
}

#[test]
fn wall_grid_marks_blocks() {
    let walls = vec![Wall { x: 0, y: 0 }, Wall { x: 3, y: 2 }];
    let grid = wall_grid(&walls, 5, 4);
    let expected = vec![
        vec![1, 1, 0, 0],
        vec![1, 1, 0, 0],
        vec![0, 1, 1, 1],
        vec![0, 1, 1, 1],
        vec![0, 1, 1, 1],
    ];
    assert_eq!(grid, expected);
}

#[test]
fn wall_grid_without_walls_or_size() {
    assert_eq!(wall_grid(&Vec::new(), 2, 3), vec![vec![0, 0, 0], vec![0, 0, 0]]);
    assert_eq!(wall_grid(&vec![Wall { x: 0, y: 0 }], 0, 0), Vec::<Vec<i32>>::new());
    assert_eq!(wall_grid(&vec![Wall { x: i32::MAX, y: i32::MIN }], 1, 1), vec![vec![0]]);
}
