use std::collections::HashSet;

use maze::matrix::Pos;
use maze::maze::Maze;
use maze::physical;
use maze::shape::{Shape, ViewBox};

fn row_positions(width: usize, rows: &[isize]) -> HashSet<Pos> {
    let mut r = HashSet::new();
    for &row in rows {
        for col in 0..width as isize {
            r.insert(Pos { col, row });
        }
    }
    r
}

/// The smallest box holding the given points.
fn bounding(points: &[(i64, i64)]) -> ViewBox {
    let left = points.iter().map(|p| p.0).min().unwrap();
    let top = points.iter().map(|p| p.1).min().unwrap();
    let right = points.iter().map(|p| p.0).max().unwrap();
    let bottom = points.iter().map(|p| p.1).max().unwrap();
    ViewBox { corner: physical::Pos { x: left, y: top }, width: right - left, height: bottom - top }
}

#[test]
fn rooms_touched_by_for_center() {
    for shape in [Shape::Hex, Shape::Quad, Shape::Tri] {
        let maze: Maze<()> = Maze::new(shape, 10, 5);
        let points: Vec<(i64, i64)> = (0..10)
            .map(|col| {
                let c = maze.center(Pos { col, row: 0 });
                (c.x, c.y)
            })
            .collect();
        let touched: HashSet<Pos> = maze
            .rooms_touched_by(bounding(&points))
            .into_iter()
            .filter(|&pos| maze.is_inside(pos))
            .collect();
        assert_eq!(touched, row_positions(10, &[0]));
    }
}

#[test]
fn rooms_touched_by_for_corners() {
    for shape in [Shape::Hex, Shape::Quad, Shape::Tri] {
        let maze: Maze<()> = Maze::new(shape, 10, 5);
        let mut points = Vec::new();
        for col in 0..10 {
            let pos = Pos { col, row: 0 };
            let c = maze.center(pos);
            for wall in maze.walls(pos) {
                points.push((c.x + wall.span.0.dx, c.y + wall.span.0.dy));
            }
        }
        let touched: HashSet<Pos> = maze
            .rooms_touched_by(bounding(&points))
            .into_iter()
            .filter(|&pos| maze.is_inside(pos))
            .collect();
        assert_eq!(touched, row_positions(10, &[0, 1]));
    }
}

#[test]
fn rooms_touched_by_single_point() {
    let maze: Maze<()> = Maze::new(Shape::Quad, 4, 4);
    let center = maze.center(Pos { col: 2, row: 1 });
    let touched = maze.rooms_touched_by(ViewBox { corner: center, width: 0, height: 0 });
    assert_eq!(touched, vec![Pos { col: 2, row: 1 }]);
    // A point strictly inside a room, away from its centre and corners,
    // touches nothing
    let inside = physical::Pos { x: center.x + 5, y: center.y + 3 };
    assert!(maze.rooms_touched_by(ViewBox { corner: inside, width: 0, height: 0 }).is_empty());
    assert!(maze.touches(ViewBox { corner: center, width: 0, height: 0 }, Pos { col: 2, row: 1 }));
}
