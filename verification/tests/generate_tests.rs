use maze::maze::Direction;
use maze::maze::Maze;
use maze::rng::MazeRng;

/// Cells reachable from (0, 0) through carved walls.
fn reachable_count(m: &Maze) -> usize {
    let w = m.get_width() as usize;
    let h = m.get_height() as usize;
    let mut seen = vec![false; w * h];
    let mut stack = vec![(0u32, 0u32)];
    seen[0] = true;
    let mut count = 1;
    while let Some((x, y)) = stack.pop() {
        let mut nbs: Vec<(u32, u32)> = Vec::new();
        if x > 0 && !m.has_wall(x, y, Direction::Left) {
            nbs.push((x - 1, y));
        }
        if y > 0 && !m.has_wall(x, y, Direction::Up) {
            nbs.push((x, y - 1));
        }
        if x + 1 < m.get_width() && !m.has_wall(x, y, Direction::Right) {
            nbs.push((x + 1, y));
        }
        if y + 1 < m.get_height() && !m.has_wall(x, y, Direction::Down) {
            nbs.push((x, y + 1));
        }
        for (nx, ny) in nbs {
            let i = (ny as usize) * w + nx as usize;
            if !seen[i] {
                seen[i] = true;
                count += 1;
                stack.push((nx, ny));
            }
        }
    }
    count
}

/// Carved walls between pairs of adjacent cells.
fn carved_internal_count(m: &Maze) -> usize {
    let mut n = 0;
    for y in 0..m.get_height() {
        for x in 0..m.get_width() {
            if x + 1 < m.get_width() && !m.has_wall(x, y, Direction::Right) {
                n += 1;
            }
            if y + 1 < m.get_height() && !m.has_wall(x, y, Direction::Down) {
                n += 1;
            }
        }
    }
    n
}

/// Carved walls on the outer border.
fn carved_border_count(m: &Maze) -> usize {
    let w = m.get_width();
    let h = m.get_height();
    let mut n = 0;
    for y in 0..h {
        if !m.has_wall(0, y, Direction::Left) {
            n += 1;
        }
        if !m.has_wall(w - 1, y, Direction::Right) {
            n += 1;
        }
    }
    for x in 0..w {
        if !m.has_wall(x, 0, Direction::Up) {
            n += 1;
        }
        if !m.has_wall(x, h - 1, Direction::Down) {
            n += 1;
        }
    }
    n
}

#[test]
fn generated_maze_is_fully_connected() {
    for seed in 0..5u64 {
        let mut rng = MazeRng::from_seed(seed);
        let m = Maze::generate_perfect(8, 6, &mut rng);
        assert_eq!(reachable_count(&m), 48);
    }
}

#[test]
fn generated_maze_has_spanning_tree_edge_count() {
    for seed in 0..5u64 {
        let mut rng = MazeRng::from_seed(100 + seed);
        let m = Maze::generate_perfect(7, 9, &mut rng);
        assert_eq!(carved_internal_count(&m), 7 * 9 - 1);
    }
}

#[test]
fn generated_maze_has_exactly_two_border_openings() {
    for seed in 0..5u64 {
        let mut rng = MazeRng::from_seed(200 + seed);
        let m = Maze::generate_perfect(6, 5, &mut rng);
        assert_eq!(carved_border_count(&m), 2);
    }
}

#[test]
fn entrance_and_exit_lie_on_distinct_cells() {
    for seed in 0..8u64 {
        let mut rng = MazeRng::from_seed(500 + seed);
        let m = Maze::generate_perfect(4, 4, &mut rng);
        let mut open_cells: Vec<(u32, u32)> = Vec::new();
        for y in 0..4 {
            if !m.has_wall(0, y, Direction::Left) {
                open_cells.push((0, y));
            }
            if !m.has_wall(3, y, Direction::Right) {
                open_cells.push((3, y));
            }
        }
        for x in 0..4 {
            if !m.has_wall(x, 0, Direction::Up) {
                open_cells.push((x, 0));
            }
            if !m.has_wall(x, 3, Direction::Down) {
                open_cells.push((x, 3));
            }
        }
        assert_eq!(open_cells.len(), 2);
        assert_ne!(open_cells[0], open_cells[1]);
    }
}

#[test]
fn generated_maze_keeps_wall_aliasing() {
    let mut rng = MazeRng::from_seed(7);
    let m = Maze::generate_perfect(9, 4, &mut rng);
    for y in 0..4 {
        for x in 0..9 {
            if x + 1 < 9 {
                assert_eq!(
                    m.has_wall(x, y, Direction::Right),
                    m.has_wall(x + 1, y, Direction::Left)
                );
            }
            if y + 1 < 4 {
                assert_eq!(
                    m.has_wall(x, y, Direction::Down),
                    m.has_wall(x, y + 1, Direction::Up)
                );
            }
        }
    }
}

#[test]
fn single_cell_maze_opens_two_different_sides() {
    for seed in 0..10u64 {
        let mut rng = MazeRng::from_seed(300 + seed);
        let m = Maze::generate_perfect(1, 1, &mut rng);
        let open = [
            Direction::Left,
            Direction::Up,
            Direction::Right,
            Direction::Down,
        ]
        .iter()
        .filter(|&&d| !m.has_wall(0, 0, d))
        .count();
        assert_eq!(open, 2);
        assert_eq!(carved_internal_count(&m), 0);
    }
}

#[test]
fn single_row_maze_is_a_connected_line_with_two_openings() {
    for seed in 0..5u64 {
        let mut rng = MazeRng::from_seed(400 + seed);
        let m = Maze::generate_perfect(5, 1, &mut rng);
        assert_eq!(reachable_count(&m), 5);
        assert_eq!(carved_internal_count(&m), 4);
        assert_eq!(carved_border_count(&m), 2);
    }
}

#[test]
fn same_seed_reproduces_the_same_maze() {
    let mut rng1 = MazeRng::from_seed(42);
    let mut rng2 = MazeRng::from_seed(42);
    let m1 = Maze::generate_perfect(12, 7, &mut rng1);
    let m2 = Maze::generate_perfect(12, 7, &mut rng2);
    for y in 0..7 {
        for x in 0..12 {
            for d in [
                Direction::Left,
                Direction::Up,
                Direction::Right,
                Direction::Down,
            ] {
                assert_eq!(m1.has_wall(x, y, d), m2.has_wall(x, y, d));
            }
        }
    }
}
