use maze::{generate_maze, path_find, Algorithm, CellState, Maze, MazeError, Point};
use rand::SeedableRng;

fn open_cells(m: &Maze) -> Vec<Point> {
    let mut cells = Vec::new();
    for y in 0..m.height {
        for x in 0..m.width {
            if m.get(x, y) == Some(CellState::Open) {
                cells.push(Point::new(x, y));
            }
        }
    }
    cells
}

fn assert_path_valid(m: &Maze, steps: &[Point], start: Point, goal: Point) {
    assert!(!steps.is_empty());
    assert_eq!(steps[0], start);
    assert_eq!(steps[steps.len() - 1], goal);
    for p in steps {
        assert_eq!(m.get(p.x, p.y), Some(CellState::Open));
    }
    for w in steps.windows(2) {
        let dx = w[0].x.abs_diff(w[1].x);
        let dy = w[0].y.abs_diff(w[1].y);
        assert_eq!(dx + dy, 1, "steps must be unit-distance apart");
    }
}

fn assert_path_simple(steps: &[Point]) {
    for i in 0..steps.len() {
        for j in (i + 1)..steps.len() {
            assert_ne!(steps[i], steps[j], "path revisits a cell");
        }
    }
}

/// Distances from `start` by an independent brute-force breadth-first
/// sweep, usable as the reference for minimality checks.
fn brute_force_distances(m: &Maze, start: Point) -> Vec<Option<usize>> {
    let n = m.width * m.height;
    let mut dist: Vec<Option<usize>> = vec![None; n];
    let mut queue = std::collections::VecDeque::new();
    dist[start.y * m.width + start.x] = Some(0);
    queue.push_back(start);
    while let Some(c) = queue.pop_front() {
        let d = dist[c.y * m.width + c.x].unwrap();
        let mut push = |x: usize, y: usize, dist: &mut Vec<Option<usize>>, queue: &mut std::collections::VecDeque<Point>| {
            if m.get(x, y) == Some(CellState::Open) && dist[y * m.width + x].is_none() {
                dist[y * m.width + x] = Some(d + 1);
                queue.push_back(Point::new(x, y));
            }
        };
        if c.x > 0 {
            push(c.x - 1, c.y, &mut dist, &mut queue);
        }
        push(c.x + 1, c.y, &mut dist, &mut queue);
        if c.y > 0 {
            push(c.x, c.y - 1, &mut dist, &mut queue);
        }
        push(c.x, c.y + 1, &mut dist, &mut queue);
    }
    dist
}

#[test]
fn new_zero_dimension_fails() {
    assert_eq!(Maze::new(0, 5).unwrap_err(), MazeError::InvalidDimensions);
    assert_eq!(Maze::new(5, 0).unwrap_err(), MazeError::InvalidDimensions);
    assert_eq!(Maze::new(0, 0).unwrap_err(), MazeError::InvalidDimensions);
    assert!(Maze::new(1, 1).is_ok());
}

#[test]
fn get_out_of_bounds_is_absent() {
    let m = Maze::new(3, 4).unwrap();
    assert_eq!(m.get(3, 0), None);
    assert_eq!(m.get(0, 4), None);
    assert_eq!(m.get(100, 100), None);
    assert_eq!(m.get(usize::MAX, 0), None);
    assert_eq!(m.get(2, 3), Some(CellState::Wall));
}

#[test]
fn fresh_grid_is_all_wall() {
    let m = Maze::new(4, 3).unwrap();
    for y in 0..3 {
        for x in 0..4 {
            assert_eq!(m.get(x, y), Some(CellState::Wall));
        }
    }
}

#[test]
fn generation_connects_every_open_cell() {
    let start = Point::new(1, 1);
    let m = generate_maze(9, 9, start, Some(42)).unwrap();
    assert_eq!(m.get(1, 1), Some(CellState::Open));
    for c in open_cells(&m) {
        let r = path_find(&m, start, c, Algorithm::Bfs);
        assert!(r.is_ok(), "open cell {:?} must be reachable from start", c);
    }
}

#[test]
fn generation_has_tree_edge_count() {
    let start = Point::new(1, 1);
    let m = generate_maze(9, 9, start, Some(7)).unwrap();
    let mut rooms = 0;
    let mut walls = 0;
    for c in open_cells(&m) {
        let odd_x = c.x % 2 == 1;
        let odd_y = c.y % 2 == 1;
        if odd_x && odd_y {
            rooms += 1;
        } else if odd_x != odd_y {
            walls += 1;
        } else {
            panic!("open cell off the room lattice: {:?}", c);
        }
    }
    assert_eq!(rooms, walls + 1, "spanning tree: one carved wall fewer than rooms");
}

#[test]
fn paths_are_valid_for_all_algorithms() {
    let start = Point::new(1, 1);
    let goal = Point::new(7, 7);
    let m = generate_maze(9, 9, start, Some(3)).unwrap();
    assert_eq!(m.get(goal.x, goal.y), Some(CellState::Open));
    for alg in [Algorithm::Bfs, Algorithm::Dfs, Algorithm::Dijkstra] {
        let p = path_find(&m, start, goal, alg).unwrap();
        assert_path_valid(&m, &p.steps, start, goal);
        assert_path_simple(&p.steps);
    }
}

#[test]
fn bfs_and_dijkstra_are_minimal() {
    let start = Point::new(1, 1);
    let m = generate_maze(11, 11, start, Some(9)).unwrap();
    let dist = brute_force_distances(&m, start);
    for goal in open_cells(&m) {
        let expected = dist[goal.y * m.width + goal.x].unwrap();
        for alg in [Algorithm::Bfs, Algorithm::Dijkstra] {
            let p = path_find(&m, start, goal, alg).unwrap();
            assert_eq!(
                p.steps.len(),
                expected + 1,
                "path length must equal the true graph distance"
            );
        }
    }
}

#[test]
fn generation_is_deterministic_under_seed() {
    let start = Point::new(1, 1);
    let a = generate_maze(9, 9, start, Some(123)).unwrap();
    let b = generate_maze(9, 9, start, Some(123)).unwrap();
    assert_eq!(a.to_text(), b.to_text());
    for y in 0..9 {
        for x in 0..9 {
            assert_eq!(a.get(x, y), b.get(x, y));
        }
    }
}

#[test]
fn five_by_five_scenario() {
    let start = Point::new(1, 1);
    let m = generate_maze(5, 5, start, Some(1)).unwrap();
    assert_eq!(m.get(1, 1), Some(CellState::Open));
    assert_eq!(m.get(0, 0), Some(CellState::Wall));
    let goal = Point::new(3, 3);
    match m.get(3, 3) {
        Some(CellState::Open) => {
            let p = path_find(&m, start, goal, Algorithm::Bfs).unwrap();
            assert_eq!(p.steps.len(), 5);
        }
        _ => {
            let e = path_find(&m, start, goal, Algorithm::Bfs).unwrap_err();
            assert_eq!(e, MazeError::InvalidEndpoint);
        }
    }
}

#[test]
fn start_equals_goal_gives_single_step_path() {
    let start = Point::new(1, 1);
    let m = generate_maze(7, 7, start, Some(5)).unwrap();
    for alg in [Algorithm::Bfs, Algorithm::Dfs, Algorithm::Dijkstra] {
        let p = path_find(&m, start, start, alg).unwrap();
        assert_eq!(p.steps, vec![start]);
    }
}

#[test]
fn endpoint_on_wall_or_outside_is_invalid() {
    let start = Point::new(1, 1);
    let m = generate_maze(7, 7, start, Some(11)).unwrap();
    let wall = Point::new(0, 0);
    let outside = Point::new(7, 7);
    for alg in [Algorithm::Bfs, Algorithm::Dfs, Algorithm::Dijkstra] {
        assert_eq!(
            path_find(&m, start, wall, alg).unwrap_err(),
            MazeError::InvalidEndpoint
        );
        assert_eq!(
            path_find(&m, wall, start, alg).unwrap_err(),
            MazeError::InvalidEndpoint
        );
        assert_eq!(
            path_find(&m, start, outside, alg).unwrap_err(),
            MazeError::InvalidEndpoint
        );
    }
}

#[test]
fn disconnected_open_cells_give_no_path_found() {
    let mut m = Maze::new(5, 5).unwrap();
    m.set(0, 0, CellState::Open);
    m.set(4, 4, CellState::Open);
    for alg in [Algorithm::Bfs, Algorithm::Dfs, Algorithm::Dijkstra] {
        assert_eq!(
            path_find(&m, Point::new(0, 0), Point::new(4, 4), alg).unwrap_err(),
            MazeError::NoPathFound
        );
    }
}

#[test]
fn adjacent_open_cells_are_routed_directly() {
    let mut m = Maze::new(3, 3).unwrap();
    m.set(0, 0, CellState::Open);
    m.set(1, 0, CellState::Open);
    for alg in [Algorithm::Bfs, Algorithm::Dfs, Algorithm::Dijkstra] {
        let p = path_find(&m, Point::new(0, 0), Point::new(1, 0), alg).unwrap();
        assert_eq!(p.steps, vec![Point::new(0, 0), Point::new(1, 0)]);
    }
}

#[test]
fn generate_maze_rejects_bad_inputs() {
    assert_eq!(
        generate_maze(0, 5, Point::new(1, 1), Some(1)).unwrap_err(),
        MazeError::InvalidDimensions
    );
    assert_eq!(
        generate_maze(5, 5, Point::new(9, 9), Some(1)).unwrap_err(),
        MazeError::InvalidEndpoint
    );
}

#[test]
fn generate_without_seed_still_generates() {
    let start = Point::new(1, 1);
    let m = generate_maze(5, 5, start, None).unwrap();
    assert_eq!(m.get(1, 1), Some(CellState::Open));
}

#[test]
fn text_dump_of_smallest_maze() {
    let start = Point::new(1, 1);
    let m = generate_maze(3, 3, start, Some(4)).unwrap();
    assert_eq!(m.to_text(), "###\n#.#\n###\n");
}

#[test]
fn text_dump_marks_open_and_wall_cells() {
    let mut m = Maze::new(2, 1).unwrap();
    m.set(0, 0, CellState::Open);
    assert_eq!(m.to_text(), ".#\n");
}

#[test]
fn neighbors_are_doubled_step_and_in_bounds() {
    let m = Maze::new(5, 5).unwrap();
    let n = m.neighbors(Point::new(1, 1));
    assert_eq!(n.len(), 2);
    assert!(n.contains(&Point::new(3, 1)));
    assert!(n.contains(&Point::new(1, 3)));
    let c = m.neighbors(Point::new(2, 2));
    assert_eq!(c.len(), 4);
}

#[test]
fn successors_are_open_unit_neighbors() {
    let mut m = Maze::new(3, 3).unwrap();
    m.set(1, 1, CellState::Open);
    m.set(0, 1, CellState::Open);
    m.set(1, 0, CellState::Open);
    let s = m.successors(Point::new(1, 1));
    assert_eq!(s.len(), 2);
    assert!(s.contains(&Point::new(0, 1)));
    assert!(s.contains(&Point::new(1, 0)));
    assert!(m.successors(Point::new(2, 2)).is_empty());
}

#[test]
fn generate_maze_method_carves_from_given_rng() {
    let mut rng = rand::rngs::StdRng::seed_from_u64(5);
    let mut m = Maze::new(9, 9).unwrap();
    m.generate_maze(Point::new(1, 1), &mut rng);
    assert_eq!(m.get(1, 1), Some(CellState::Open));
    let mut rng2 = rand::rngs::StdRng::seed_from_u64(5);
    let mut m2 = Maze::new(9, 9).unwrap();
    m2.generate_maze(Point::new(1, 1), &mut rng2);
    assert_eq!(m.to_text(), m2.to_text());
}

fn count_simple_paths(m: &Maze, from: Point, to: Point, visited: &mut Vec<Point>) -> usize {
    if from == to {
        return 1;
    }
    let mut total = 0;
    let mut step = |x: usize, y: usize, visited: &mut Vec<Point>, total: &mut usize| {
        let next = Point::new(x, y);
        if m.get(x, y) == Some(CellState::Open) && !visited.contains(&next) {
            visited.push(next);
            *total += count_simple_paths(m, next, to, visited);
            visited.pop();
        }
    };
    if from.x > 0 {
        step(from.x - 1, from.y, visited, &mut total);
    }
    step(from.x + 1, from.y, visited, &mut total);
    if from.y > 0 {
        step(from.x, from.y - 1, visited, &mut total);
    }
    step(from.x, from.y + 1, visited, &mut total);
    total
}

#[test]
fn exactly_one_simple_path_between_open_cells() {
    let start = Point::new(1, 1);
    let m = generate_maze(5, 5, start, Some(21)).unwrap();
    let cells = open_cells(&m);
    for &a in &cells {
        for &b in &cells {
            if a != b {
                let mut visited = vec![a];
                let n = count_simple_paths(&m, a, b, &mut visited);
                assert_eq!(n, 1, "cells {:?} and {:?} must be joined by exactly one simple path", a, b);
            }
        }
    }
}

#[test]
fn every_room_on_the_lattice_is_carved() {
    let start = Point::new(1, 1);
    let m = generate_maze(9, 9, start, Some(13)).unwrap();
    for y in 0..9 {
        for x in 0..9 {
            if x % 2 == 1 && y % 2 == 1 {
                assert_eq!(m.get(x, y), Some(CellState::Open), "room ({x},{y}) must be carved");
            }
            if x % 2 == 0 && y % 2 == 0 {
                assert_eq!(m.get(x, y), Some(CellState::Wall), "lattice corner ({x},{y}) stays wall");
            }
        }
    }
}

#[test]
fn all_algorithms_agree_on_a_perfect_maze() {
    let start = Point::new(1, 1);
    let m = generate_maze(9, 9, start, Some(17)).unwrap();
    for goal in open_cells(&m) {
        let bfs = path_find(&m, start, goal, Algorithm::Bfs).unwrap();
        let dfs = path_find(&m, start, goal, Algorithm::Dfs).unwrap();
        let dij = path_find(&m, start, goal, Algorithm::Dijkstra).unwrap();
        assert_eq!(bfs.steps, dfs.steps, "a perfect maze has one simple path only");
        assert_eq!(bfs.steps, dij.steps);
    }
}
