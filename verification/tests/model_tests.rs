use maze::maze::Direction;
use maze::maze::Maze;

#[test]
fn new_grid_fully_walled() {
    let m = Maze::new(4, 3);
    assert_eq!(m.get_width(), 4);
    assert_eq!(m.get_height(), 3);
    for y in 0..3 {
        for x in 0..4 {
            assert!(m.has_wall(x, y, Direction::Left));
            assert!(m.has_wall(x, y, Direction::Up));
            assert!(m.has_wall(x, y, Direction::Right));
            assert!(m.has_wall(x, y, Direction::Down));
        }
    }
}

#[test]
fn set_wall_visible_from_both_sides() {
    let mut m = Maze::new(3, 3);
    m.set_wall(1, 1, Direction::Right, false);
    assert!(!m.has_wall(1, 1, Direction::Right));
    assert!(!m.has_wall(2, 1, Direction::Left));
    m.set_wall(2, 1, Direction::Left, true);
    assert!(m.has_wall(1, 1, Direction::Right));
    m.set_wall(1, 1, Direction::Down, false);
    assert!(!m.has_wall(1, 2, Direction::Up));
}

#[test]
fn wall_aliasing_after_carving() {
    let mut m = Maze::new(5, 4);
    m.set_wall(0, 0, Direction::Right, false);
    m.set_wall(3, 2, Direction::Down, false);
    m.set_wall(2, 3, Direction::Left, false);
    for y in 0..4 {
        for x in 0..5 {
            if x + 1 < 5 {
                assert_eq!(
                    m.has_wall(x, y, Direction::Right),
                    m.has_wall(x + 1, y, Direction::Left)
                );
            }
            if y + 1 < 4 {
                assert_eq!(
                    m.has_wall(x, y, Direction::Down),
                    m.has_wall(x, y + 1, Direction::Up)
                );
            }
        }
    }
}

#[test]
fn has_wall_safe_far_outside_is_false() {
    let m = Maze::new(3, 2);
    let dirs = [
        Direction::Left,
        Direction::Up,
        Direction::Right,
        Direction::Down,
    ];
    for &d in &dirs {
        for &x in &[-5i64, -2, 0, 4, 10] {
            for &y in &[-7i64, -2, 0, 3, 9] {
                if x <= -2 || y <= -2 || x >= 4 || y >= 3 {
                    assert!(!m.has_wall_safe(x, y, d));
                }
            }
        }
    }
}

#[test]
fn has_wall_safe_ring_maps_to_adjoining_wall() {
    let mut m = Maze::new(3, 2);
    m.set_wall(1, 0, Direction::Up, false);
    m.set_wall(0, 1, Direction::Left, false);
    m.set_wall(2, 0, Direction::Right, false);
    m.set_wall(1, 1, Direction::Down, false);
    // one row above: only Down maps inward
    assert_eq!(m.has_wall_safe(1, -1, Direction::Down), false);
    assert_eq!(m.has_wall_safe(0, -1, Direction::Down), true);
    assert!(!m.has_wall_safe(1, -1, Direction::Up));
    assert!(!m.has_wall_safe(1, -1, Direction::Left));
    // one column left: only Right maps inward
    assert_eq!(m.has_wall_safe(-1, 1, Direction::Right), false);
    assert_eq!(m.has_wall_safe(-1, 0, Direction::Right), true);
    assert!(!m.has_wall_safe(-1, 1, Direction::Up));
    // one row below: only Up maps inward
    assert_eq!(m.has_wall_safe(1, 2, Direction::Up), false);
    assert_eq!(m.has_wall_safe(0, 2, Direction::Up), true);
    // one column right: only Left maps inward
    assert_eq!(m.has_wall_safe(3, 0, Direction::Left), false);
    assert_eq!(m.has_wall_safe(3, 1, Direction::Left), true);
    // ring corners carry no wall at all
    for &d in &dirs() {
        assert!(!m.has_wall_safe(-1, -1, d));
        assert!(!m.has_wall_safe(3, -1, d));
        assert!(!m.has_wall_safe(-1, 2, d));
        assert!(!m.has_wall_safe(3, 2, d));
    }
    // interior queries fall through to has_wall
    assert_eq!(m.has_wall_safe(1, 0, Direction::Up), false);
    assert_eq!(m.has_wall_safe(1, 0, Direction::Left), true);
}

fn dirs() -> [Direction; 4] {
    [
        Direction::Left,
        Direction::Up,
        Direction::Right,
        Direction::Down,
    ]
}
