use maze::matrix::{Matrix, Pos};
use maze::maze::Maze;
use maze::shape::{quad, Shape};
use maze::walk::{add, heatmap, HeatMapType};

fn matrix_pos(col: isize, row: isize) -> Pos {
    Pos { col, row }
}

/// A quadrilateral maze of one row with every inner wall open.
fn corridor(width: usize) -> Maze<()> {
    let mut maze: Maze<()> = Maze::new(Shape::Quad, width, 1);
    for col in 0..width as isize - 1 {
        maze.open((matrix_pos(col, 0), quad::wall(quad::RIGHT)));
    }
    maze
}

#[test]
fn walk_closed_maze() {
    let maze: Maze<()> = Maze::new(Shape::Quad, 3, 1);
    assert_eq!(maze.walk(matrix_pos(0, 0), matrix_pos(2, 0)), None);
    assert_eq!(maze.walk(matrix_pos(1, 0), matrix_pos(1, 0)), Some(vec![matrix_pos(1, 0)]));
    assert_eq!(maze.walk(matrix_pos(-1, 0), matrix_pos(1, 0)), None);
}

#[test]
fn walk_corridor() {
    let maze = corridor(3);
    assert_eq!(
        maze.walk(matrix_pos(0, 0), matrix_pos(2, 0)),
        Some(vec![matrix_pos(0, 0), matrix_pos(1, 0), matrix_pos(2, 0)])
    );
    assert_eq!(
        maze.walk(matrix_pos(2, 0), matrix_pos(1, 0)),
        Some(vec![matrix_pos(2, 0), matrix_pos(1, 0)])
    );
}

#[test]
fn walk_around_a_corner() {
    for shape in [Shape::Hex, Shape::Quad, Shape::Tri] {
        let maze: Maze<()> = Maze::new(shape, 6, 4);
        let filter = Matrix::new(6, 4, true);
        let mut rng = <rand::rngs::StdRng as rand::SeedableRng>::seed_from_u64(3);
        let maze = maze::initialize::Method::Clear.apply(maze, &mut rng, &filter);
        let path = maze.walk(matrix_pos(0, 0), matrix_pos(5, 3)).unwrap();
        assert_eq!(path[0], matrix_pos(0, 0));
        assert_eq!(*path.last().unwrap(), matrix_pos(5, 3));
        for pair in path.windows(2) {
            assert!(maze.connected(pair[0], pair[1]));
        }
    }
}

#[test]
fn heatmap_counts() {
    let maze = corridor(3);
    let positions = vec![
        (matrix_pos(0, 0), matrix_pos(2, 0)),
        (matrix_pos(1, 0), matrix_pos(2, 0)),
        (matrix_pos(0, 0), matrix_pos(0, 0)),
        (matrix_pos(0, 0), matrix_pos(7, 0)),
    ];
    let map = heatmap(&maze, &positions);
    assert_eq!(map.get(matrix_pos(0, 0)), Some(&2));
    assert_eq!(map.get(matrix_pos(1, 0)), Some(&2));
    assert_eq!(map.get(matrix_pos(2, 0)), Some(&2));
}

#[test]
fn heatmap_type_positions() {
    assert_eq!(
        HeatMapType::Vertical.positions(3, 2),
        vec![
            (matrix_pos(0, 0), matrix_pos(0, 1)),
            (matrix_pos(1, 0), matrix_pos(1, 1)),
            (matrix_pos(2, 0), matrix_pos(2, 1)),
        ]
    );
    assert_eq!(
        HeatMapType::Horizontal.positions(3, 2),
        vec![(matrix_pos(0, 0), matrix_pos(2, 0)), (matrix_pos(0, 1), matrix_pos(2, 1))]
    );
    assert_eq!(
        HeatMapType::Full.positions(3, 2),
        vec![
            (matrix_pos(0, 0), matrix_pos(2, 1)),
            (matrix_pos(1, 0), matrix_pos(1, 1)),
            (matrix_pos(2, 0), matrix_pos(0, 1)),
            (matrix_pos(0, 1), matrix_pos(2, 0)),
        ]
    );
    assert!(HeatMapType::Full.positions(0, 4).is_empty());
}

#[test]
fn heatmap_generate() {
    let maze = corridor(4);
    let map = HeatMapType::Horizontal.generate(&maze);
    for col in 0..4 {
        assert_eq!(map.get(matrix_pos(col, 0)), Some(&1));
    }
    let map = HeatMapType::Vertical.generate(&maze);
    for col in 0..4 {
        assert_eq!(map.get(matrix_pos(col, 0)), Some(&1));
    }
}

#[test]
fn heatmap_type_from_name() {
    assert_eq!(HeatMapType::from_name("vertical"), Ok(HeatMapType::Vertical));
    assert_eq!(HeatMapType::from_name("horizontal"), Ok(HeatMapType::Horizontal));
    assert_eq!(HeatMapType::from_name("full"), Ok(HeatMapType::Full));
    assert_eq!(HeatMapType::from_name("diagonal"), Err("diagonal".to_owned()));
}

#[test]
fn heatmap_add() {
    let mut a = Matrix::new(2, 1, 3u32);
    a.set(matrix_pos(1, 0), u32::MAX - 1);
    let b = Matrix::new(2, 1, 4u32);
    let sum = add(&a, &b);
    assert_eq!(sum.get(matrix_pos(0, 0)), Some(&7));
    assert_eq!(sum.get(matrix_pos(1, 0)), Some(&u32::MAX));
}
