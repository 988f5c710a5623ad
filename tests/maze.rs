use maze::initialize::{clear, Method, Randomizer};
use maze::matrix::{Matrix, Pos};
use maze::maze::{Maze, MazeType};
use maze::shape::Shape;

fn matrix_pos(col: isize, row: isize) -> Pos {
    Pos { col, row }
}

fn all_shapes() -> Vec<Shape> {
    vec![Shape::Hex, Shape::Quad, Shape::Tri]
}

fn positions(width: usize, height: usize) -> Vec<Pos> {
    let mut r = Vec::new();
    for row in 0..height as isize {
        for col in 0..width as isize {
            r.push(matrix_pos(col, row));
        }
    }
    r
}

/// Hands out a fixed list of numbers.
struct Script {
    values: Vec<usize>,
    next: usize,
}

impl Randomizer for Script {
    fn range(&mut self, low: usize, high: usize) -> usize {
        let value = self.values[self.next];
        self.next += 1;
        assert!(low <= value && value < high);
        value
    }
}

#[test]
fn width_correct() {
    let width = 10;
    let height = 5;
    let maze: Maze<()> = Maze::new(Shape::Quad, width, height);

    assert!(maze.width() == width);
}

#[test]
fn height_correct() {
    let width = 10;
    let height = 5;
    let maze: Maze<()> = Maze::new(Shape::Quad, width, height);

    assert!(maze.height() == height);
}

#[test]
fn maze_type_create() {
    let maze: Maze<()> = MazeType::from_num(6).unwrap().create(3, 2);
    assert_eq!(MazeType::from_num(4), Some(MazeType::Quad));
    assert_eq!(MazeType::from_num(5), None);
    assert_eq!(MazeType::Tri.shape(), Shape::Tri);
    assert_eq!(maze.shape(), Shape::Hex);
    assert_eq!(maze.width(), 3);
    assert_eq!(maze.height(), 2);
}

#[test]
fn is_inside_correct() {
    for shape in all_shapes() {
        let maze: Maze<()> = Maze::new(shape, 10, 5);
        assert!(maze.is_inside(matrix_pos(0, 0)));
        assert!(maze.is_inside(matrix_pos(9, 4)));
        assert!(!maze.is_inside(matrix_pos(-1, -1)));
        assert!(!maze.is_inside(matrix_pos(10, 5)));
    }
}

#[test]
fn can_open_and_close() {
    for shape in all_shapes() {
        let mut maze: Maze<()> = Maze::new(shape, 10, 5);
        let pos = matrix_pos(1, 1);
        let wall = maze.walls(pos)[0];
        let back = maze.back((pos, wall));
        maze.open((pos, wall));
        assert!(maze.is_open((pos, wall)));
        assert!(maze.is_open(back));
        let open_here = maze.walls(pos).into_iter().filter(|w| maze.is_open((pos, *w))).count();
        assert_eq!(open_here, 1);
        maze.close(back);
        assert!(!maze.is_open((pos, wall)));
        assert!(!maze.is_open(back));
    }
}

#[test]
fn open_on_the_edge() {
    let mut maze: Maze<()> = Maze::new(Shape::Quad, 2, 2);
    let pos = matrix_pos(0, 0);
    let left = maze.walls(pos)[0];
    maze.open((pos, left));
    assert!(maze.is_open((pos, left)));
    assert!(!maze.is_open(maze.back((pos, left))));
}

#[test]
fn connected_correct() {
    for shape in all_shapes() {
        let mut maze: Maze<()> = Maze::new(shape, 10, 5);
        for pos in positions(10, 5) {
            assert!(maze.connected(pos, pos));
        }

        let pos1 = matrix_pos(1, 1);
        for wall in maze.walls(pos1) {
            let pos2 = matrix_pos(pos1.col + wall.dir.0, pos1.row + wall.dir.1);
            assert!(!maze.connected(pos1, pos2));
            maze.open((pos1, wall));
            assert!(maze.connected(pos1, pos2));
            assert!(maze.connected(pos2, pos1));
            maze.close((pos1, wall));
            assert!(!maze.connected(pos1, pos2));
            assert!(!maze.connected(pos2, pos1));
        }
        assert!(!maze.connected(pos1, matrix_pos(5, 4)));
    }
}

#[test]
fn create_populated() {
    for shape in all_shapes() {
        let width = 10;
        let height = 5;

        let mut matrix = Matrix::new(width, height, 0isize);
        for pos in positions(width, height) {
            matrix.set(pos, pos.col * pos.row);
        }

        let maze = shape.create_populated(&matrix);
        assert_eq!(maze.width(), width);
        assert_eq!(maze.height(), height);
        for pos in positions(width, height) {
            assert_eq!(maze.data(pos), Some(&(pos.col * pos.row)));
        }
        assert_eq!(maze.data(matrix_pos(-1, 0)), None);
    }
}

#[test]
fn matrix_get() {
    let mut matrix = Matrix::new(3, 2, 7u32);
    matrix.set(matrix_pos(2, 1), 9);
    assert_eq!(matrix.get(matrix_pos(2, 1)), Some(&9));
    assert_eq!(matrix.get(matrix_pos(0, 0)), Some(&7));
    assert_eq!(matrix.get(matrix_pos(3, 0)), None);
    assert_eq!(matrix.get(matrix_pos(0, -1)), None);
}

#[test]
fn clear_all_rooms() {
    for shape in all_shapes() {
        let maze: Maze<()> = Maze::new(shape, 6, 4);
        let filter = Matrix::new(6, 4, true);
        let mut rng = Script { values: vec![], next: 0 };
        let maze = clear::initialize(maze, &mut rng, &filter);
        for pos in positions(6, 4) {
            for wall in maze.walls(pos) {
                let back = maze.back((pos, wall));
                assert_eq!(maze.is_open((pos, wall)), maze.is_inside(back.0));
            }
        }
    }
}

#[test]
fn clear_filtered_rooms() {
    let maze: Maze<()> = Maze::new(Shape::Quad, 4, 4);
    let mut filter = Matrix::new(4, 4, false);
    filter.set(matrix_pos(1, 1), true);
    filter.set(matrix_pos(2, 1), true);
    filter.set(matrix_pos(1, 3), true);
    let mut rng = Script { values: vec![], next: 0 };
    let maze = Method::Clear.apply(maze, &mut rng, &filter);
    assert!(maze.connected(matrix_pos(1, 1), matrix_pos(2, 1)));
    let open: usize = positions(4, 4)
        .into_iter()
        .map(|pos| maze.walls(pos).into_iter().filter(|w| maze.is_open((pos, *w))).count())
        .sum();
    assert_eq!(open, 2);
}

#[test]
fn method_from_name() {
    assert_eq!(Method::from_name("clear"), Some(Method::Clear));
    assert_eq!(Method::from_name("Clear"), None);
    assert_eq!(Method::from_name(""), None);
}
