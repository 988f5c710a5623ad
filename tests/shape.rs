use std::collections::HashSet;

use maze::matrix::Pos;
use maze::maze::Maze;
use maze::physical;
use maze::shape::{hex, quad, surround, tri, Shape, ViewBox, Wall, WallPos};

fn matrix_pos(col: isize, row: isize) -> Pos {
    Pos { col, row }
}

fn hex_maze(width: usize, height: usize) -> Maze<()> {
    Maze::new(Shape::Hex, width, height)
}

fn w(i: usize) -> Wall {
    hex::wall(i)
}

fn all_shapes() -> Vec<Shape> {
    vec![Shape::Hex, Shape::Quad, Shape::Tri]
}

fn positions(maze: &Maze<()>) -> Vec<Pos> {
    let mut r = Vec::new();
    for row in 0..maze.height() as isize {
        for col in 0..maze.width() as isize {
            r.push(matrix_pos(col, row));
        }
    }
    r
}

/// Opens the wall leading in direction `dir` from `pos` and returns the room
/// on the other side.
fn navigate(maze: &mut Maze<()>, pos: Pos, dir: (isize, isize), open: bool) -> Pos {
    let wall = maze
        .walls(pos)
        .into_iter()
        .filter(|wall| wall.dir == dir)
        .find(|wall| maze.is_inside(matrix_pos(pos.col + wall.dir.0, pos.row + wall.dir.1)))
        .unwrap();
    maze.set_open((pos, wall), open);
    matrix_pos(pos.col + dir.0, pos.row + dir.1)
}

#[test]
fn back() {
    let maze = hex_maze(5, 5);

    assert_eq!(maze.back((matrix_pos(1, 0), w(hex::LEFT0))), (matrix_pos(0, 0), w(hex::RIGHT0)));
    assert_eq!(maze.back((matrix_pos(1, 1), w(hex::LEFT1))), (matrix_pos(0, 1), w(hex::RIGHT1)));
    assert_eq!(
        maze.back((matrix_pos(1, 2), w(hex::UP_LEFT0))),
        (matrix_pos(1, 1), w(hex::DOWN_RIGHT1))
    );
    assert_eq!(
        maze.back((matrix_pos(1, 1), w(hex::UP_LEFT1))),
        (matrix_pos(0, 0), w(hex::DOWN_RIGHT0))
    );
    assert_eq!(
        maze.back((matrix_pos(0, 2), w(hex::UP_RIGHT0))),
        (matrix_pos(1, 1), w(hex::DOWN_LEFT1))
    );
    assert_eq!(
        maze.back((matrix_pos(0, 1), w(hex::UP_RIGHT1))),
        (matrix_pos(0, 0), w(hex::DOWN_LEFT0))
    );
    assert_eq!(maze.back((matrix_pos(0, 0), w(hex::RIGHT0))), (matrix_pos(1, 0), w(hex::LEFT0)));
    assert_eq!(maze.back((matrix_pos(0, 1), w(hex::RIGHT1))), (matrix_pos(1, 1), w(hex::LEFT1)));
    assert_eq!(
        maze.back((matrix_pos(0, 0), w(hex::DOWN_RIGHT0))),
        (matrix_pos(1, 1), w(hex::UP_LEFT1))
    );
    assert_eq!(
        maze.back((matrix_pos(0, 1), w(hex::DOWN_RIGHT1))),
        (matrix_pos(0, 2), w(hex::UP_LEFT0))
    );
    assert_eq!(
        maze.back((matrix_pos(1, 0), w(hex::DOWN_LEFT0))),
        (matrix_pos(1, 1), w(hex::UP_RIGHT1))
    );
    assert_eq!(
        maze.back((matrix_pos(1, 1), w(hex::DOWN_LEFT1))),
        (matrix_pos(0, 2), w(hex::UP_RIGHT0))
    );
}

#[test]
fn opposite() {
    let maze = hex_maze(5, 5);

    assert_eq!(maze.opposite((matrix_pos(1, 0), w(hex::LEFT0))).unwrap(), w(hex::RIGHT0));
    assert_eq!(maze.opposite((matrix_pos(1, 1), w(hex::LEFT1))).unwrap(), w(hex::RIGHT1));
    assert_eq!(maze.opposite((matrix_pos(1, 2), w(hex::UP_LEFT0))).unwrap(), w(hex::DOWN_RIGHT0));
    assert_eq!(maze.opposite((matrix_pos(1, 1), w(hex::UP_LEFT1))).unwrap(), w(hex::DOWN_RIGHT1));
    assert_eq!(maze.opposite((matrix_pos(0, 2), w(hex::UP_RIGHT0))).unwrap(), w(hex::DOWN_LEFT0));
    assert_eq!(maze.opposite((matrix_pos(0, 1), w(hex::UP_RIGHT1))).unwrap(), w(hex::DOWN_LEFT1));
    assert_eq!(maze.opposite((matrix_pos(0, 0), w(hex::RIGHT0))).unwrap(), w(hex::LEFT0));
    assert_eq!(maze.opposite((matrix_pos(0, 1), w(hex::RIGHT1))).unwrap(), w(hex::LEFT1));
    assert_eq!(maze.opposite((matrix_pos(0, 0), w(hex::DOWN_RIGHT0))).unwrap(), w(hex::UP_LEFT0));
    assert_eq!(maze.opposite((matrix_pos(0, 1), w(hex::DOWN_RIGHT1))).unwrap(), w(hex::UP_LEFT1));
    assert_eq!(maze.opposite((matrix_pos(1, 0), w(hex::DOWN_LEFT0))).unwrap(), w(hex::UP_RIGHT0));
    assert_eq!(maze.opposite((matrix_pos(1, 1), w(hex::DOWN_LEFT1))).unwrap(), w(hex::UP_RIGHT1));
}

#[test]
fn corner_walls() {
    let maze = hex_maze(5, 5);

    assert_eq!(
        maze.corner_walls((matrix_pos(1, 2), w(hex::LEFT0))),
        vec![
            (matrix_pos(1, 2), w(hex::LEFT0)),
            (matrix_pos(0, 2), w(hex::DOWN_RIGHT0)),
            (matrix_pos(1, 3), w(hex::UP_RIGHT1)),
        ]
    );
    assert_eq!(
        maze.corner_walls((matrix_pos(1, 1), w(hex::LEFT1))),
        vec![
            (matrix_pos(1, 1), w(hex::LEFT1)),
            (matrix_pos(0, 1), w(hex::DOWN_RIGHT1)),
            (matrix_pos(0, 2), w(hex::UP_RIGHT0)),
        ]
    );
    assert_eq!(
        maze.corner_walls((matrix_pos(1, 2), w(hex::UP_LEFT0))),
        vec![
            (matrix_pos(1, 2), w(hex::UP_LEFT0)),
            (matrix_pos(1, 1), w(hex::DOWN_LEFT1)),
            (matrix_pos(0, 2), w(hex::UP_RIGHT0)),
        ]
    );
    assert_eq!(
        maze.corner_walls((matrix_pos(1, 1), w(hex::UP_LEFT1))),
        vec![
            (matrix_pos(1, 1), w(hex::UP_LEFT1)),
            (matrix_pos(0, 0), w(hex::DOWN_LEFT0)),
            (matrix_pos(0, 1), w(hex::RIGHT1)),
        ]
    );
    assert_eq!(
        maze.corner_walls((matrix_pos(1, 2), w(hex::UP_RIGHT0))),
        vec![
            (matrix_pos(1, 2), w(hex::UP_RIGHT0)),
            (matrix_pos(2, 1), w(hex::LEFT1)),
            (matrix_pos(1, 1), w(hex::DOWN_RIGHT1)),
        ]
    );
    assert_eq!(
        maze.corner_walls((matrix_pos(1, 1), w(hex::UP_RIGHT1))),
        vec![
            (matrix_pos(1, 1), w(hex::UP_RIGHT1)),
            (matrix_pos(1, 0), w(hex::LEFT0)),
            (matrix_pos(0, 0), w(hex::DOWN_RIGHT0)),
        ]
    );
    assert_eq!(
        maze.corner_walls((matrix_pos(1, 2), w(hex::RIGHT0))),
        vec![
            (matrix_pos(1, 2), w(hex::RIGHT0)),
            (matrix_pos(2, 2), w(hex::UP_LEFT0)),
            (matrix_pos(2, 1), w(hex::DOWN_LEFT1)),
        ]
    );
    assert_eq!(
        maze.corner_walls((matrix_pos(1, 1), w(hex::RIGHT1))),
        vec![
            (matrix_pos(1, 1), w(hex::RIGHT1)),
            (matrix_pos(2, 1), w(hex::UP_LEFT1)),
            (matrix_pos(1, 0), w(hex::DOWN_LEFT0)),
        ]
    );
    assert_eq!(
        maze.corner_walls((matrix_pos(1, 2), w(hex::DOWN_RIGHT0))),
        vec![
            (matrix_pos(1, 2), w(hex::DOWN_RIGHT0)),
            (matrix_pos(2, 3), w(hex::UP_RIGHT1)),
            (matrix_pos(2, 2), w(hex::LEFT0)),
        ]
    );
    assert_eq!(
        maze.corner_walls((matrix_pos(1, 1), w(hex::DOWN_RIGHT1))),
        vec![
            (matrix_pos(1, 1), w(hex::DOWN_RIGHT1)),
            (matrix_pos(1, 2), w(hex::UP_RIGHT0)),
            (matrix_pos(2, 1), w(hex::LEFT1)),
        ]
    );
    assert_eq!(
        maze.corner_walls((matrix_pos(1, 2), w(hex::DOWN_LEFT0))),
        vec![
            (matrix_pos(1, 2), w(hex::DOWN_LEFT0)),
            (matrix_pos(1, 3), w(hex::RIGHT1)),
            (matrix_pos(2, 3), w(hex::UP_LEFT1)),
        ]
    );
    assert_eq!(
        maze.corner_walls((matrix_pos(1, 1), w(hex::DOWN_LEFT1))),
        vec![
            (matrix_pos(1, 1), w(hex::DOWN_LEFT1)),
            (matrix_pos(0, 2), w(hex::RIGHT0)),
            (matrix_pos(1, 2), w(hex::UP_LEFT0)),
        ]
    );
}

#[test]
fn corner_walls_meet_at_the_corner() {
    for shape in all_shapes() {
        let maze: Maze<()> = Maze::new(shape, 10, 5);
        for pos in positions(&maze) {
            for wall in maze.walls(pos) {
                let center = maze.center(pos);
                let corner = (center.x + wall.span.0.dx, center.y + wall.span.0.dy);
                let walls = maze.corner_walls((pos, wall));
                assert_eq!(walls.len(), if shape == Shape::Hex { 3 } else if shape == Shape::Quad { 4 } else { 6 });
                for (q, other) in walls {
                    assert!(maze.walls(q).contains(&other));
                    let c = maze.center(q);
                    let first = (c.x + other.span.0.dx, c.y + other.span.0.dy);
                    let last = (c.x + other.span.1.dx, c.y + other.span.1.dy);
                    assert!(first == corner || last == corner);
                }
            }
        }
    }
}

#[test]
fn wall_masks() {
    assert_eq!(hex::wall(hex::DOWN_LEFT0).mask(), 1 << 11);
    assert_eq!(quad::wall(quad::LEFT).mask(), 1);
    assert_eq!(tri::wall(tri::UP1).mask(), 32);
}

#[test]
fn follow_wall_single_room() {
    let maze = hex_maze(5, 5);

    assert_eq!(
        vec![
            (matrix_pos(0, 0), w(hex::LEFT0)),
            (matrix_pos(0, 0), w(hex::UP_LEFT0)),
            (matrix_pos(0, 0), w(hex::UP_RIGHT0)),
            (matrix_pos(0, 0), w(hex::RIGHT0)),
            (matrix_pos(0, 0), w(hex::DOWN_RIGHT0)),
            (matrix_pos(0, 0), w(hex::DOWN_LEFT0)),
        ],
        maze.follow_wall((matrix_pos(0, 0), w(hex::LEFT0)))
    );
}

#[test]
fn follow_wall() {
    let mut maze = hex_maze(5, 5);

    let pos = navigate(&mut maze, matrix_pos(0, 0), (0, 1), true);
    let pos = navigate(&mut maze, pos, (1, 0), true);
    navigate(&mut maze, pos, (0, -1), true);

    assert_eq!(
        vec![
            (matrix_pos(0, 0), w(hex::LEFT0)),
            (matrix_pos(0, 0), w(hex::UP_LEFT0)),
            (matrix_pos(0, 0), w(hex::UP_RIGHT0)),
            (matrix_pos(0, 0), w(hex::RIGHT0)),
            (matrix_pos(0, 0), w(hex::DOWN_RIGHT0)),
            (matrix_pos(1, 1), w(hex::UP_LEFT1)),
            (matrix_pos(1, 0), w(hex::LEFT0)),
            (matrix_pos(1, 0), w(hex::UP_LEFT0)),
            (matrix_pos(1, 0), w(hex::UP_RIGHT0)),
            (matrix_pos(1, 0), w(hex::RIGHT0)),
            (matrix_pos(1, 0), w(hex::DOWN_RIGHT0)),
            (matrix_pos(1, 1), w(hex::RIGHT1)),
            (matrix_pos(1, 1), w(hex::DOWN_RIGHT1)),
            (matrix_pos(1, 1), w(hex::DOWN_LEFT1)),
            (matrix_pos(0, 1), w(hex::DOWN_RIGHT1)),
            (matrix_pos(0, 1), w(hex::DOWN_LEFT1)),
            (matrix_pos(0, 1), w(hex::LEFT1)),
            (matrix_pos(0, 1), w(hex::UP_LEFT1)),
        ],
        maze.follow_wall((matrix_pos(0, 0), w(hex::LEFT0)))
    );
}

#[test]
fn follow_wall_closed_rooms_every_shape() {
    for shape in all_shapes() {
        let maze: Maze<()> = Maze::new(shape, 10, 5);
        for pos in positions(&maze) {
            let walls = maze.walls(pos);
            for k in 0..walls.len() {
                let walk = maze.follow_wall((pos, walls[k]));
                assert_eq!(walk.len(), walls.len());
                for (j, wall_pos) in walk.iter().enumerate() {
                    assert_eq!(*wall_pos, (pos, walls[(k + j) % walls.len()]));
                }
            }
        }
    }
}

#[test]
fn surround_single() {
    assert_eq!(
        [matrix_pos(0, 0)].iter().cloned().collect::<HashSet<Pos>>(),
        surround(matrix_pos(0, 0), 0).into_iter().collect(),
    );
}

#[test]
fn surround_multiple() {
    assert_eq!(
        [
            matrix_pos(-1, -1),
            matrix_pos(0, -1),
            matrix_pos(1, -1),
            matrix_pos(-1, 0),
            matrix_pos(1, 0),
            matrix_pos(-1, 1),
            matrix_pos(0, 1),
            matrix_pos(1, 1),
        ]
        .iter()
        .cloned()
        .collect::<HashSet<Pos>>(),
        surround(matrix_pos(0, 0), 1).into_iter().collect(),
    );
}

#[test]
fn surround_counts() {
    assert_eq!(surround(matrix_pos(3, -2), 0).len(), 1);
    assert_eq!(surround(matrix_pos(3, -2), 2).len(), 16);
    assert_eq!(surround(matrix_pos(3, -2), 5).len(), 40);
}

#[test]
fn viewbox_centered_at() {
    assert_eq!(
        ViewBox::centered_at(physical::Pos { x: 0, y: 0 }, 2, 2),
        ViewBox { corner: physical::Pos { x: -1, y: -1 }, width: 2, height: 2 },
    );
}

#[test]
fn viewbox_expand() {
    assert_eq!(
        ViewBox { corner: physical::Pos { x: 1, y: 1 }, width: 1, height: 1 }.expand(1),
        ViewBox { corner: physical::Pos { x: 0, y: 0 }, width: 3, height: 3 },
    );
    assert_eq!(
        ViewBox { corner: physical::Pos { x: 1, y: 1 }, width: 1, height: 1 }.expand(1).expand(-1),
        ViewBox { corner: physical::Pos { x: 1, y: 1 }, width: 1, height: 1 },
    );
}

#[test]
fn viewbox_center() {
    let center = physical::Pos { x: 5, y: -5 };
    assert_eq!(ViewBox::centered_at(center, 10, 10).center(), center);
}

#[test]
fn viewbox_of_quad_maze() {
    let viewbox = Shape::Quad.viewbox(4, 4);
    assert_eq!(viewbox, ViewBox { corner: physical::Pos { x: 0, y: 0 }, width: 160, height: 160 });
    assert_eq!(viewbox.tuple(), (0, 0, 160, 160));
}

#[test]
fn viewbox_of_hex_maze() {
    // Even rows start half a room further right than odd ones
    let viewbox = Shape::Hex.viewbox(3, 2);
    assert_eq!(viewbox, ViewBox { corner: physical::Pos { x: 0, y: 0 }, width: 140, height: 140 });
}

#[test]
fn viewbox_of_empty_maze() {
    assert_eq!(
        Shape::Tri.viewbox(0, 3),
        ViewBox { corner: physical::Pos { x: 0, y: 0 }, width: 0, height: 0 }
    );
}

#[test]
fn shape_from_str() {
    assert_eq!("tri".parse(), Ok(Shape::Tri),);
    assert_eq!("quad".parse(), Ok(Shape::Quad),);
    assert_eq!("hex".parse(), Ok(Shape::Hex),);
    assert_eq!("invalid".parse::<Shape>(), Err("invalid".to_owned()));
}

#[test]
fn shape_from_num() {
    assert_eq!(Shape::from_num(3), Some(Shape::Tri));
    assert_eq!(Shape::from_num(4), Some(Shape::Quad));
    assert_eq!(Shape::from_num(6), Some(Shape::Hex));
    assert_eq!(Shape::from_num(5), None);
    assert_eq!(Shape::try_from_walls(6), Ok(Shape::Hex));
    assert_eq!(Shape::try_from_walls(0), Err(0));
}

#[test]
fn back_of_back_is_identity() {
    for shape in all_shapes() {
        let maze: Maze<()> = Maze::new(shape, 10, 5);
        for pos in positions(&maze) {
            for wall in maze.walls(pos) {
                let wall_pos: WallPos = (pos, wall);
                let back = maze.back(wall_pos);
                assert_ne!(back.0, pos);
                assert_eq!(maze.back(back), wall_pos);
            }
        }
    }
}

#[test]
fn opposite_of_opposite_is_identity() {
    for shape in all_shapes() {
        let maze: Maze<()> = Maze::new(shape, 4, 4);
        for wall in maze.all_walls() {
            let pos = matrix_pos(1, 1);
            match maze.opposite((pos, wall)) {
                Some(other) => {
                    assert_ne!(shape, Shape::Tri);
                    assert_ne!(other, wall);
                    assert_eq!(maze.opposite((pos, other)), Some(wall));
                }
                None => assert_eq!(shape, Shape::Tri),
            }
        }
    }
}

#[test]
fn room_at() {
    for shape in all_shapes() {
        let maze: Maze<()> = Maze::new(shape, 10, 5);
        for pos in positions(&maze) {
            let center = maze.center(pos);
            for wall in maze.walls(pos) {
                // Up to nineteen twentieths of the way to the first corner
                for t in 0..=19 {
                    let x = center.x + t * wall.span.0.dx / 20;
                    let y = center.y + t * wall.span.0.dy / 20;
                    assert_eq!(maze.room_at(physical::Pos { x, y }), pos);
                    assert_eq!(shape.physical_to_cell(physical::Pos { x, y }), pos);
                }
            }
            assert_eq!(maze.room_at(center), pos);
            assert_eq!(shape.cell_to_physical(pos), center);
        }
    }
}

#[test]
fn room_at_outside() {
    let maze: Maze<()> = Maze::new(Shape::Quad, 2, 2);
    assert_eq!(maze.room_at(physical::Pos { x: -1, y: -1 }), matrix_pos(-1, -1));
    assert_eq!(maze.room_at(physical::Pos { x: 40, y: 79 }), matrix_pos(1, 1));
    assert_eq!(maze.room_at(physical::Pos { x: 80, y: 0 }), matrix_pos(2, 0));
}

#[test]
fn centers() {
    assert_eq!(quad::center(matrix_pos(2, 1)), physical::Pos { x: 100, y: 60 });
    assert_eq!(hex::center(matrix_pos(2, 1)), physical::Pos { x: 100, y: 100 });
    assert_eq!(hex::center(matrix_pos(2, 2)), physical::Pos { x: 120, y: 160 });
    assert_eq!(tri::center(matrix_pos(2, 1)), physical::Pos { x: 60, y: 80 });
    assert_eq!(tri::center(matrix_pos(1, 1)), physical::Pos { x: 40, y: 100 });
}

#[test]
fn hex_room_at_zigzag() {
    // Just above the upper left edge of the room at (1, 2) lies the room at
    // (1, 1)
    let corner = hex::center(matrix_pos(1, 2));
    assert_eq!(hex::room_at(physical::Pos { x: corner.x - 10, y: corner.y - 31 }), matrix_pos(1, 1));
    assert_eq!(hex::room_at(physical::Pos { x: corner.x - 10, y: corner.y - 29 }), matrix_pos(1, 2));
    assert_eq!(hex::room_at(physical::Pos { x: corner.x + 10, y: corner.y - 31 }), matrix_pos(2, 1));
}

#[test]
fn wall_pos_at() {
    for shape in all_shapes() {
        let maze: Maze<()> = Maze::new(shape, 10, 5);
        for pos in positions(&maze) {
            let center = maze.center(pos);
            for wall in maze.walls(pos) {
                // Halfway between the corners of the wall, a little inside
                let dx = (wall.span.0.dx + wall.span.1.dx) / 4;
                let dy = (wall.span.0.dy + wall.span.1.dy) / 4;
                let found = maze.wall_pos_at(physical::Pos { x: center.x + dx, y: center.y + dy });
                assert_eq!(found, (pos, wall));
            }
        }
    }
}

#[test]
fn in_span() {
    let right = quad::wall(quad::RIGHT);
    assert!(right.in_span(1, 0));
    assert!(right.in_span(20, -20));
    assert!(!right.in_span(20, 20));
    assert!(!right.in_span(0, 1));
    assert!(quad::wall(quad::DOWN).in_span(20, 20));
}

#[test]
fn walls_unique() {
    for shape in all_shapes() {
        let maze: Maze<()> = Maze::new(shape, 10, 5);
        let walls = maze.walls(matrix_pos(0, 1));
        assert_eq!(walls.len(), shape.wall_count());
        let indices: HashSet<usize> = walls.iter().map(|wall| wall.index).collect();
        assert_eq!(indices.len(), walls.len());
    }
}
