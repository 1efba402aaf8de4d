use space_qud::combat::astar;
use space_qud::level::{Level, Tile};

fn adjacent(a: (i32, i32), b: (i32, i32)) -> bool {
    let dx = (a.0 - b.0).abs();
    let dy = (a.1 - b.1).abs();
    dx <= 1 && dy <= 1 && (dx, dy) != (0, 0)
}

#[test]
fn astar_same_tile_is_empty() {
    let level = Level::new(4, 4, Tile::Grass);
    assert!(astar((1, 1), (1, 1), &level).is_empty());
}

#[test]
fn astar_open_ground_takes_king_moves() {
    let level = Level::new(6, 6, Tile::Grass);
    let path: Vec<(i32, i32)> = astar((0, 0), (3, 2), &level).into_iter().collect();
    assert_eq!(path.len(), 3);
    assert_eq!(*path.last().unwrap(), (3, 2));
    assert!(adjacent((0, 0), path[0]));
    for w in path.windows(2) {
        assert!(adjacent(w[0], w[1]));
    }
}

#[test]
fn astar_goes_around_a_wall() {
    let mut level = Level::new(5, 5, Tile::Grass);
    for y in 0..4 {
        level.set(2, y, Tile::Wall);
    }
    let path: Vec<(i32, i32)> = astar((0, 0), (4, 0), &level).into_iter().collect();
    assert_eq!(*path.last().unwrap(), (4, 0));
    assert!(path.contains(&(2, 4)));
    for p in &path[..path.len() - 1] {
        assert!(level.walkable(p.0, p.1));
    }
    assert_eq!(path.len(), 8);
}

#[test]
fn astar_unreachable_goal_is_empty() {
    let mut level = Level::new(5, 5, Tile::Grass);
    for y in 0..5 {
        level.set(2, y, Tile::Wall);
    }
    assert!(astar((0, 0), (4, 4), &level).is_empty());
}

#[test]
fn astar_may_end_on_an_unwalkable_goal() {
    let mut level = Level::new(4, 1, Tile::Grass);
    level.set(3, 0, Tile::Wall);
    let path: Vec<(i32, i32)> = astar((0, 0), (3, 0), &level).into_iter().collect();
    assert_eq!(path, vec![(1, 0), (2, 0), (3, 0)]);
}

#[test]
fn astar_no_diagonal_squeeze() {
    let mut level = Level::new(2, 2, Tile::Grass);
    level.set(1, 0, Tile::Wall);
    level.set(0, 1, Tile::Wall);
    assert!(astar((0, 0), (1, 1), &level).is_empty());
    level.set(1, 0, Tile::Grass);
    let path: Vec<(i32, i32)> = astar((0, 0), (1, 1), &level).into_iter().collect();
    assert_eq!(path, vec![(1, 1)]);
}
