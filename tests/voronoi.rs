use std::collections::HashSet;

use rand::SeedableRng;

use maze::initialize::{Method, Randomizer};
use maze::matrix::{Matrix, Pos};
use maze::maze::Maze;
use maze::shape::{quad, Shape};
use maze::voronoi::{self, Methods, Site};

fn matrix_pos(col: isize, row: isize) -> Pos {
    Pos { col, row }
}

fn positions(width: usize, height: usize) -> Vec<Pos> {
    let mut r = Vec::new();
    for row in 0..height as isize {
        for col in 0..width as isize {
            r.push(matrix_pos(col, row));
        }
    }
    r
}

/// Hands out a fixed list of numbers.
struct Script {
    values: Vec<usize>,
    next: usize,
}

impl Randomizer for Script {
    fn range(&mut self, low: usize, high: usize) -> usize {
        let value = self.values[self.next];
        self.next += 1;
        assert!(low <= value && value < high);
        value
    }
}

/// The rooms reachable from `start` through open walls.
fn flood(maze: &Maze<()>, start: Pos) -> HashSet<Pos> {
    let mut seen = HashSet::new();
    let mut pending = vec![start];
    seen.insert(start);
    while let Some(pos) = pending.pop() {
        for wall in maze.walls(pos) {
            let next = matrix_pos(pos.col + wall.dir.0, pos.row + wall.dir.1);
            if maze.is_inside(next) && maze.connected(pos, next) && seen.insert(next) {
                pending.push(next);
            }
        }
    }
    seen
}

#[test]
fn nearest_weighted() {
    let sites = vec![
        Site { x: 0, y: 0, weight: 500 },
        Site { x: 100, y: 0, weight: 1400 },
    ];
    // Unweighted, the point is closer to the first site; the weight of the
    // second pulls it over
    let center = maze::physical::Pos { x: 40, y: 0 };
    assert_eq!(voronoi::nearest(Shape::Quad, center, &sites), 1);
    assert!(!voronoi::is_nearer_eq(Shape::Quad, center, sites[0], sites[1]));
    // Ties go to the first site
    let even = vec![Site { x: 0, y: 0, weight: 1000 }, Site { x: 80, y: 0, weight: 1000 }];
    assert_eq!(voronoi::nearest(Shape::Quad, maze::physical::Pos { x: 40, y: 7 }, &even), 0);
}

#[test]
fn scripted_four_by_four() {
    let maze: Maze<()> = Maze::new(Shape::Quad, 4, 4);
    let filter = Matrix::new(4, 4, true);
    // Sites at the centres of the corner rooms, equal weights, and the fourth
    // boundary wall as connector
    let mut rng = Script { values: vec![20, 20, 1000, 140, 140, 1000, 3], next: 0 };
    let methods = Methods::new(vec![Method::Clear, Method::Clear]);
    let (matrix, maze) = methods.initialize(maze, &mut rng, &filter);
    assert_eq!(rng.next, 7);

    let expected = [[0, 0, 0, 0], [0, 0, 0, 1], [0, 0, 1, 1], [0, 1, 1, 1]];
    for pos in positions(4, 4) {
        assert_eq!(*matrix.get(pos).unwrap(), expected[pos.row as usize][pos.col as usize]);
    }

    let connector = (matrix_pos(1, 2), quad::wall(quad::RIGHT));
    let connector_back = maze.back(connector);
    for pos in positions(4, 4) {
        for wall in maze.walls(pos) {
            let back = maze.back((pos, wall));
            let same = maze.is_inside(back.0)
                && matrix.get(pos) == matrix.get(back.0);
            let is_connector = (pos, wall) == connector || (pos, wall) == connector_back;
            assert_eq!(maze.is_open((pos, wall)), same || is_connector);
        }
    }
}

#[test]
fn boundary_lists() {
    let maze: Maze<()> = Maze::new(Shape::Quad, 4, 4);
    let sites = vec![Site { x: 20, y: 20, weight: 1000 }, Site { x: 140, y: 140, weight: 1000 }];
    let matrix = voronoi::matrix(&maze, &sites);
    let edges = voronoi::edges(&maze, &matrix, 2);
    assert_eq!(edges.len(), 1);
    assert_eq!(
        edges[0],
        vec![
            (matrix_pos(3, 0), quad::wall(quad::DOWN)),
            (matrix_pos(2, 1), quad::wall(quad::RIGHT)),
            (matrix_pos(2, 1), quad::wall(quad::DOWN)),
            (matrix_pos(1, 2), quad::wall(quad::RIGHT)),
            (matrix_pos(1, 2), quad::wall(quad::DOWN)),
            (matrix_pos(0, 3), quad::wall(quad::RIGHT)),
        ]
    );
    assert!(voronoi::boundary_walls(&maze, &matrix, 1, 0).len() == 6);
}

#[test]
fn three_regions_connected() {
    for shape in [Shape::Quad, Shape::Hex, Shape::Tri] {
        let maze: Maze<()> = Maze::new(shape, 10, 5);
        let viewbox = shape.viewbox(10, 5);
        let (_, _, width, _) = viewbox.tuple();
        let filter = Matrix::new(10, 5, true);
        // Three sites of equal weight along the middle, left to right
        let third = (width / 6) as usize;
        let y = (viewbox.height / 2) as usize;
        let mut rng = Script {
            values: vec![third, y, 1000, 3 * third, y, 1000, 5 * third, y, 1000, 0, 0],
            next: 0,
        };
        let methods = Methods::new(vec![Method::Clear, Method::Clear, Method::Clear]);
        let (matrix, maze) = methods.initialize(maze, &mut rng, &filter);
        let regions: HashSet<usize> = positions(10, 5).into_iter().map(|pos| *matrix.get(pos).unwrap()).collect();
        assert_eq!(regions.len(), 3);
        assert_eq!(flood(&maze, matrix_pos(0, 0)).len(), 50);
    }
}

#[test]
fn neighbouring_regions_get_connectors() {
    for seed in 0..8u64 {
        let mut rng = rand::rngs::StdRng::seed_from_u64(seed);
        let maze: Maze<()> = Maze::new(Shape::Quad, 10, 5);
        let filter = Matrix::new(10, 5, true);
        let methods = Methods::new(vec![Method::Clear, Method::Clear, Method::Clear, Method::Clear]);
        let (matrix, maze) = methods.initialize(maze, &mut rng, &filter);
        for a in 0..4 {
            for b in a + 1..4 {
                let walls = voronoi::boundary_walls(&maze, &matrix, a, b);
                if !walls.is_empty() {
                    assert!(walls.iter().any(|wall_pos| maze.is_open(*wall_pos)));
                }
            }
        }
    }
}

#[test]
fn single_method_is_plain_clear() {
    let maze: Maze<()> = Maze::new(Shape::Hex, 10, 5);
    let filter = Matrix::new(10, 5, true);
    let mut rng = rand::rngs::StdRng::seed_from_u64(7);
    let (matrix, initialized) = Methods::new(vec![Method::Clear]).initialize(maze, &mut rng, &filter);
    let plain = Method::Clear.apply(Maze::<()>::new(Shape::Hex, 10, 5), &mut rng, &filter);
    for pos in positions(10, 5) {
        assert_eq!(*matrix.get(pos).unwrap(), 0);
        for wall in initialized.walls(pos) {
            assert_eq!(initialized.is_open((pos, wall)), plain.is_open((pos, wall)));
        }
    }
}

#[test]
fn no_methods_clear_everything() {
    let maze: Maze<()> = Maze::new(Shape::Tri, 6, 3);
    let filter = Matrix::new(6, 3, true);
    let mut rng = rand::rngs::StdRng::seed_from_u64(1);
    let (_, maze) = Methods::new(vec![]).initialize(maze, &mut rng, &filter);
    assert_eq!(flood(&maze, matrix_pos(0, 0)).len(), 18);
    let (_, maze) = Methods::default().initialize(maze, &mut rng, &filter);
    assert_eq!(flood(&maze, matrix_pos(5, 2)).len(), 18);
}

#[test]
fn filter_limits_methods() {
    let maze: Maze<()> = Maze::new(Shape::Quad, 4, 4);
    let filter = Matrix::new(4, 4, false);
    let mut rng = Script { values: vec![20, 20, 1000, 140, 140, 1000, 0], next: 0 };
    let methods = Methods::new(vec![Method::Clear, Method::Clear]);
    let (_, maze) = methods.initialize(maze, &mut rng, &filter);
    // Only the connector is open
    let open: usize = positions(4, 4)
        .into_iter()
        .map(|pos| maze.walls(pos).into_iter().filter(|w| maze.is_open((pos, *w))).count())
        .sum();
    assert_eq!(open, 2);
    assert!(maze.connected(matrix_pos(3, 0), matrix_pos(3, 1)));
}

#[test]
fn empty_maze_initializes() {
    let maze: Maze<()> = Maze::new(Shape::Hex, 0, 3);
    let filter = Matrix::new(0, 3, true);
    let mut rng = Script { values: vec![0, 0, 700, 0, 0, 1200], next: 0 };
    let methods = Methods::new(vec![Method::Clear, Method::Clear]);
    let (matrix, maze) = methods.initialize(maze, &mut rng, &filter);
    assert_eq!(matrix.width, 0);
    assert_eq!(matrix.height, 3);
    assert_eq!(maze.width(), 0);
    assert_eq!(rng.next, 6);
}

#[test]
fn region_without_rooms() {
    // The second site is far away and light, so it gets no room
    let maze: Maze<()> = Maze::new(Shape::Quad, 4, 4);
    let sites = vec![Site { x: 80, y: 80, weight: 1400 }, Site { x: 0, y: -5000, weight: 500 }];
    let matrix = voronoi::matrix(&maze, &sites);
    assert!(positions(4, 4).into_iter().all(|pos| *matrix.get(pos).unwrap() == 0));
    assert!(voronoi::edges(&maze, &matrix, 2).is_empty());
}

#[test]
fn methods_from_names() {
    let methods: Methods = "clear".parse().unwrap();
    assert_eq!(methods.methods, vec![Method::Clear]);
    let methods = Methods::from_names("clear,clear,clear").unwrap();
    assert_eq!(methods.methods.len(), 3);
    assert_eq!(Methods::from_names("clear,").err(), Some("clear,".to_owned()));
    assert!(Methods::from_names("").is_err());
    assert!(Methods::from_names("clear,winding").is_err());
    assert!(Methods::from_names("clear;clear").is_err());
}

#[test]
fn edges_one_list_per_pair() {
    let maze: Maze<()> = Maze::new(Shape::Hex, 10, 5);
    let sites = vec![
        Site { x: 60, y: 100, weight: 1000 },
        Site { x: 200, y: 100, weight: 1000 },
        Site { x: 340, y: 100, weight: 1000 },
    ];
    let matrix = voronoi::matrix(&maze, &sites);
    let edges = voronoi::edges(&maze, &matrix, 3);
    // Regions 0 and 2 do not meet
    assert_eq!(edges.len(), 2);
    let mut seen = HashSet::new();
    for list in &edges {
        assert!(!list.is_empty());
        for wall_pos in list {
            assert!(seen.insert(*wall_pos));
        }
        let (p, _) = list[0];
        let pair = (*matrix.get(p).unwrap(), *matrix.get(maze.back(list[0]).0).unwrap());
        for wall_pos in list {
            let here = *matrix.get(wall_pos.0).unwrap();
            let there = *matrix.get(maze.back(*wall_pos).0).unwrap();
            assert_eq!((here, there), pair);
            assert!(here < there);
        }
    }
}
