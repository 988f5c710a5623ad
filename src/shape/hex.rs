//! Hexagonal rooms.
//!
//! Rows are laid out like bricks: odd rows are shifted half a room to the
//! left, so the walls of a room depend on the parity of its row.

use vstd::prelude::*;

use crate::matrix::Pos;
use crate::physical;

use super::{Angle, Offset, Shape, Wall, WallPos};

verus! {

/// The number of walls in the table.
pub const WALL_COUNT: usize = 12;

/// The left wall of a room on an even row.
pub const LEFT0: usize = 0;
/// The right wall of a room on an even row.
pub const RIGHT0: usize = 1;
/// The left wall of a room on an odd row.
pub const LEFT1: usize = 2;
/// The right wall of a room on an odd row.
pub const RIGHT1: usize = 3;
/// The upper left wall of a room on an even row.
pub const UP_LEFT0: usize = 4;
/// The lower right wall of a room on an odd row.
pub const DOWN_RIGHT1: usize = 5;
/// The upper left wall of a room on an odd row.
pub const UP_LEFT1: usize = 6;
/// The lower right wall of a room on an even row.
pub const DOWN_RIGHT0: usize = 7;
/// The upper right wall of a room on an even row.
pub const UP_RIGHT0: usize = 8;
/// The lower left wall of a room on an odd row.
pub const DOWN_LEFT1: usize = 9;
/// The upper right wall of a room on an odd row.
pub const UP_RIGHT1: usize = 10;
/// The lower left wall of a room on an even row.
pub const DOWN_LEFT0: usize = 11;

/// The wall with index `i` of this shape.
pub open spec fn wall_spec(i: int) -> Wall {
    if i == 0 {
        // LEFT0
        Wall {
            shape: Shape::Hex,
            index: 0,
            dir: (-1isize, 0isize),
            span: (Angle { dx: -20i64, dy: 20i64 }, Angle { dx: -20i64, dy: -20i64 }),
            previous: 11,
            next: 4,
        }
    } else if i == 1 {
        // RIGHT0
        Wall {
            shape: Shape::Hex,
            index: 1,
            dir: (1isize, 0isize),
            span: (Angle { dx: 20i64, dy: -20i64 }, Angle { dx: 20i64, dy: 20i64 }),
            previous: 8,
            next: 7,
        }
    } else if i == 2 {
        // LEFT1
        Wall {
            shape: Shape::Hex,
            index: 2,
            dir: (-1isize, 0isize),
            span: (Angle { dx: -20i64, dy: 20i64 }, Angle { dx: -20i64, dy: -20i64 }),
            previous: 9,
            next: 6,
        }
    } else if i == 3 {
        // RIGHT1
        Wall {
            shape: Shape::Hex,
            index: 3,
            dir: (1isize, 0isize),
            span: (Angle { dx: 20i64, dy: -20i64 }, Angle { dx: 20i64, dy: 20i64 }),
            previous: 10,
            next: 5,
        }
    } else if i == 4 {
        // UP_LEFT0
        Wall {
            shape: Shape::Hex,
            index: 4,
            dir: (0isize, -1isize),
            span: (Angle { dx: -20i64, dy: -20i64 }, Angle { dx: 0i64, dy: -40i64 }),
            previous: 0,
            next: 8,
        }
    } else if i == 5 {
        // DOWN_RIGHT1
        Wall {
            shape: Shape::Hex,
            index: 5,
            dir: (0isize, 1isize),
            span: (Angle { dx: 20i64, dy: 20i64 }, Angle { dx: 0i64, dy: 40i64 }),
            previous: 3,
            next: 9,
        }
    } else if i == 6 {
        // UP_LEFT1
        Wall {
            shape: Shape::Hex,
            index: 6,
            dir: (-1isize, -1isize),
            span: (Angle { dx: -20i64, dy: -20i64 }, Angle { dx: 0i64, dy: -40i64 }),
            previous: 2,
            next: 10,
        }
    } else if i == 7 {
        // DOWN_RIGHT0
        Wall {
            shape: Shape::Hex,
            index: 7,
            dir: (1isize, 1isize),
            span: (Angle { dx: 20i64, dy: 20i64 }, Angle { dx: 0i64, dy: 40i64 }),
            previous: 1,
            next: 11,
        }
    } else if i == 8 {
        // UP_RIGHT0
        Wall {
            shape: Shape::Hex,
            index: 8,
            dir: (1isize, -1isize),
            span: (Angle { dx: 0i64, dy: -40i64 }, Angle { dx: 20i64, dy: -20i64 }),
            previous: 4,
            next: 1,
        }
    } else if i == 9 {
        // DOWN_LEFT1
        Wall {
            shape: Shape::Hex,
            index: 9,
            dir: (-1isize, 1isize),
            span: (Angle { dx: 0i64, dy: 40i64 }, Angle { dx: -20i64, dy: 20i64 }),
            previous: 5,
            next: 2,
        }
    } else if i == 10 {
        // UP_RIGHT1
        Wall {
            shape: Shape::Hex,
            index: 10,
            dir: (0isize, -1isize),
            span: (Angle { dx: 0i64, dy: -40i64 }, Angle { dx: 20i64, dy: -20i64 }),
            previous: 6,
            next: 3,
        }
    } else {
        // DOWN_LEFT0
        Wall {
            shape: Shape::Hex,
            index: 11,
            dir: (0isize, 1isize),
            span: (Angle { dx: 0i64, dy: 40i64 }, Angle { dx: -20i64, dy: 20i64 }),
            previous: 7,
            next: 0,
        }
    }
}

/// Returns the wall with index `i` of this shape.
pub fn wall(i: usize) -> (r: Wall)
    requires
        i < WALL_COUNT,
    ensures
        r == wall_spec(i as int),
{
    match i {
        0 => {
            // LEFT0
            Wall {
                shape: Shape::Hex,
                index: 0,
                dir: (-1, 0),
                span: (Angle { dx: -20, dy: 20 }, Angle { dx: -20, dy: -20 }),
                previous: 11,
                next: 4,
            }
        },
        1 => {
            // RIGHT0
            Wall {
                shape: Shape::Hex,
                index: 1,
                dir: (1, 0),
                span: (Angle { dx: 20, dy: -20 }, Angle { dx: 20, dy: 20 }),
                previous: 8,
                next: 7,
            }
        },
        2 => {
            // LEFT1
            Wall {
                shape: Shape::Hex,
                index: 2,
                dir: (-1, 0),
                span: (Angle { dx: -20, dy: 20 }, Angle { dx: -20, dy: -20 }),
                previous: 9,
                next: 6,
            }
        },
        3 => {
            // RIGHT1
            Wall {
                shape: Shape::Hex,
                index: 3,
                dir: (1, 0),
                span: (Angle { dx: 20, dy: -20 }, Angle { dx: 20, dy: 20 }),
                previous: 10,
                next: 5,
            }
        },
        4 => {
            // UP_LEFT0
            Wall {
                shape: Shape::Hex,
                index: 4,
                dir: (0, -1),
                span: (Angle { dx: -20, dy: -20 }, Angle { dx: 0, dy: -40 }),
                previous: 0,
                next: 8,
            }
        },
        5 => {
            // DOWN_RIGHT1
            Wall {
                shape: Shape::Hex,
                index: 5,
                dir: (0, 1),
                span: (Angle { dx: 20, dy: 20 }, Angle { dx: 0, dy: 40 }),
                previous: 3,
                next: 9,
            }
        },
        6 => {
            // UP_LEFT1
            Wall {
                shape: Shape::Hex,
                index: 6,
                dir: (-1, -1),
                span: (Angle { dx: -20, dy: -20 }, Angle { dx: 0, dy: -40 }),
                previous: 2,
                next: 10,
            }
        },
        7 => {
            // DOWN_RIGHT0
            Wall {
                shape: Shape::Hex,
                index: 7,
                dir: (1, 1),
                span: (Angle { dx: 20, dy: 20 }, Angle { dx: 0, dy: 40 }),
                previous: 1,
                next: 11,
            }
        },
        8 => {
            // UP_RIGHT0
            Wall {
                shape: Shape::Hex,
                index: 8,
                dir: (1, -1),
                span: (Angle { dx: 0, dy: -40 }, Angle { dx: 20, dy: -20 }),
                previous: 4,
                next: 1,
            }
        },
        9 => {
            // DOWN_LEFT1
            Wall {
                shape: Shape::Hex,
                index: 9,
                dir: (-1, 1),
                span: (Angle { dx: 0, dy: 40 }, Angle { dx: -20, dy: 20 }),
                previous: 5,
                next: 2,
            }
        },
        10 => {
            // UP_RIGHT1
            Wall {
                shape: Shape::Hex,
                index: 10,
                dir: (0, -1),
                span: (Angle { dx: 0, dy: -40 }, Angle { dx: 20, dy: -20 }),
                previous: 6,
                next: 3,
            }
        },
        _ => {
            // DOWN_LEFT0
            Wall {
                shape: Shape::Hex,
                index: 11,
                dir: (0, 1),
                span: (Angle { dx: 0, dy: 40 }, Angle { dx: -20, dy: 20 }),
                previous: 7,
                next: 0,
            }
        },
    }
}

/// Returns the index of the wall on the other side of the wall with index
/// `wall`; the walls are arranged in back to back pairs.
pub fn back_index(wall: usize) -> (r: usize)
    requires
        wall < WALL_COUNT,
    ensures
        r == Shape::Hex.back_index_spec(wall as int),
{
    if wall % 2 == 0 {
        wall + 1
    } else {
        wall - 1
    }
}

/// The index of the wall on the opposite side of a room.
pub open spec fn opposite_index_spec(i: int) -> int {
    if i < 4 {
        Shape::Hex.back_index_spec(i)
    } else {
        (i / 4) * 4 + 3 - i % 4
    }
}

/// Returns the wall on the opposite side of the room of `wall_pos`.
pub fn opposite(wall_pos: WallPos) -> (r: Option<Wall>)
    requires
        wall_pos.1.index < WALL_COUNT,
    ensures
        r == Some(wall_spec(opposite_index_spec(wall_pos.1.index as int))),
{
    let i = wall_pos.1.index;
    // The left and right walls are back to back, the others are paired
    // within groups of four
    let j = if i < 4 {
        back_index(i)
    } else {
        (i / 4) * 4 + 3 - i % 4
    };
    Some(wall(j))
}

/// The walls of the room at `pos`, going clockwise from the left wall.
pub open spec fn walls_spec(pos: Pos) -> Seq<Wall> {
    if pos.row % 2 == 1 {
        seq![
            wall_spec(2),
            wall_spec(6),
            wall_spec(10),
            wall_spec(3),
            wall_spec(5),
            wall_spec(9),
        ]
    } else {
        seq![
            wall_spec(0),
            wall_spec(4),
            wall_spec(8),
            wall_spec(1),
            wall_spec(7),
            wall_spec(11),
        ]
    }
}

/// Returns the walls of the room at `pos`.
pub fn walls(pos: Pos) -> (r: Vec<Wall>)
    requires
        pos.in_range(),
    ensures
        r@ == walls_spec(pos),
{
    if super::is_odd(pos.row) {
        vec![wall(2), wall(6), wall(10), wall(3), wall(5), wall(9)]
    } else {
        vec![wall(0), wall(4), wall(8), wall(1), wall(7), wall(11)]
    }
}

/// The centre of the room at `pos`.
pub open spec fn center_spec(pos: Pos) -> physical::Pos {
    physical::Pos {
        x: (if pos.row % 2 == 1 {
            40 * pos.col + 20
        } else {
            40 * pos.col + 40
        }) as i64,
        y: (60 * pos.row + 40) as i64,
    }
}

/// Returns the centre of the room at `pos`.
pub fn center(pos: Pos) -> (r: physical::Pos)
    requires
        pos.in_range(),
    ensures
        r == center_spec(pos),
{
    let col = pos.col as i64;
    let row = pos.row as i64;
    physical::Pos {
        x: if super::is_odd(pos.row) {
            40 * col + 20
        } else {
            40 * col + 40
        },
        y: 60 * row + 40,
    }
}

/// The room whose hexagon holds `p`.
///
/// The row strip and the column within it give an approximation; a point in
/// the zigzag at the top of the strip that lies above one of the two upper
/// edges of that hexagon belongs to the neighbour on the row above.
pub open spec fn room_at_spec(p: physical::Pos) -> Pos {
    let row = p.y / 60;
    let ry = p.y - row * 60;
    let odd = row % 2 == 1;
    let col = if odd {
        p.x / 40
    } else {
        (p.x - 20) / 40
    };
    let rx = if odd {
        p.x - col * 40
    } else {
        p.x - 20 - col * 40
    };
    if rx + ry < 20 {
        Pos { col: (if odd { col - 1 } else { col }) as isize, row: (row - 1) as isize }
    } else if rx - ry > 20 {
        Pos { col: (if odd { col } else { col + 1 }) as isize, row: (row - 1) as isize }
    } else {
        Pos { col: col as isize, row: row as isize }
    }
}

/// Returns the room whose hexagon holds `p`.
pub fn room_at(p: physical::Pos) -> (r: Pos)
    requires
        p.in_range(),
    ensures
        r == room_at_spec(p),
        r.in_range(),
{
    let row = physical::floor_div(p.y, 60);
    let ry = p.y - row * 60;
    let odd = super::is_odd(row as isize);
    let col = if odd {
        physical::floor_div(p.x, 40)
    } else {
        physical::floor_div(p.x - 20, 40)
    };
    let rx = if odd {
        p.x - col * 40
    } else {
        p.x - 20 - col * 40
    };
    if rx + ry < 20 {
        Pos { col: (if odd { col - 1 } else { col }) as isize, row: (row - 1) as isize }
    } else if rx - ry > 20 {
        Pos { col: (if odd { col } else { col + 1 }) as isize, row: (row - 1) as isize }
    } else {
        Pos { col: col as isize, row: row as isize }
    }
}


/// The offsets to the other walls that share the first corner of the wall
/// with index `i`, going round the corner.
pub open spec fn corner_offsets_spec(i: int) -> Seq<Offset> {
    if i == 0 {
        // LEFT0
        seq![Offset { dx: -1isize, dy: 0isize, wall: 7usize }, Offset { dx: 0isize, dy: 1isize, wall: 10usize }]
    } else if i == 1 {
        // RIGHT0
        seq![Offset { dx: 1isize, dy: 0isize, wall: 4usize }, Offset { dx: 1isize, dy: -1isize, wall: 9usize }]
    } else if i == 2 {
        // LEFT1
        seq![Offset { dx: -1isize, dy: 0isize, wall: 5usize }, Offset { dx: -1isize, dy: 1isize, wall: 8usize }]
    } else if i == 3 {
        // RIGHT1
        seq![Offset { dx: 1isize, dy: 0isize, wall: 6usize }, Offset { dx: 0isize, dy: -1isize, wall: 11usize }]
    } else if i == 4 {
        // UP_LEFT0
        seq![Offset { dx: 0isize, dy: -1isize, wall: 9usize }, Offset { dx: -1isize, dy: 0isize, wall: 8usize }]
    } else if i == 5 {
        // DOWN_RIGHT1
        seq![Offset { dx: 0isize, dy: 1isize, wall: 8usize }, Offset { dx: 1isize, dy: 0isize, wall: 2usize }]
    } else if i == 6 {
        // UP_LEFT1
        seq![Offset { dx: -1isize, dy: -1isize, wall: 11usize }, Offset { dx: -1isize, dy: 0isize, wall: 3usize }]
    } else if i == 7 {
        // DOWN_RIGHT0
        seq![Offset { dx: 1isize, dy: 1isize, wall: 10usize }, Offset { dx: 1isize, dy: 0isize, wall: 0usize }]
    } else if i == 8 {
        // UP_RIGHT0
        seq![Offset { dx: 1isize, dy: -1isize, wall: 2usize }, Offset { dx: 0isize, dy: -1isize, wall: 5usize }]
    } else if i == 9 {
        // DOWN_LEFT1
        seq![Offset { dx: -1isize, dy: 1isize, wall: 1usize }, Offset { dx: 0isize, dy: 1isize, wall: 4usize }]
    } else if i == 10 {
        // UP_RIGHT1
        seq![Offset { dx: 0isize, dy: -1isize, wall: 0usize }, Offset { dx: -1isize, dy: -1isize, wall: 7usize }]
    } else {
        // DOWN_LEFT0
        seq![Offset { dx: 0isize, dy: 1isize, wall: 3usize }, Offset { dx: 1isize, dy: 1isize, wall: 6usize }]
    }
}

/// Returns the offsets to the other walls that share the first corner of the
/// wall with index `i`.
pub fn corner_offsets(i: usize) -> (r: Vec<Offset>)
    requires
        i < WALL_COUNT,
    ensures
        r@ == corner_offsets_spec(i as int),
{
    match i {
        // LEFT0
        0 => vec![Offset { dx: -1, dy: 0, wall: 7 }, Offset { dx: 0, dy: 1, wall: 10 }],
        // RIGHT0
        1 => vec![Offset { dx: 1, dy: 0, wall: 4 }, Offset { dx: 1, dy: -1, wall: 9 }],
        // LEFT1
        2 => vec![Offset { dx: -1, dy: 0, wall: 5 }, Offset { dx: -1, dy: 1, wall: 8 }],
        // RIGHT1
        3 => vec![Offset { dx: 1, dy: 0, wall: 6 }, Offset { dx: 0, dy: -1, wall: 11 }],
        // UP_LEFT0
        4 => vec![Offset { dx: 0, dy: -1, wall: 9 }, Offset { dx: -1, dy: 0, wall: 8 }],
        // DOWN_RIGHT1
        5 => vec![Offset { dx: 0, dy: 1, wall: 8 }, Offset { dx: 1, dy: 0, wall: 2 }],
        // UP_LEFT1
        6 => vec![Offset { dx: -1, dy: -1, wall: 11 }, Offset { dx: -1, dy: 0, wall: 3 }],
        // DOWN_RIGHT0
        7 => vec![Offset { dx: 1, dy: 1, wall: 10 }, Offset { dx: 1, dy: 0, wall: 0 }],
        // UP_RIGHT0
        8 => vec![Offset { dx: 1, dy: -1, wall: 2 }, Offset { dx: 0, dy: -1, wall: 5 }],
        // DOWN_LEFT1
        9 => vec![Offset { dx: -1, dy: 1, wall: 1 }, Offset { dx: 0, dy: 1, wall: 4 }],
        // UP_RIGHT1
        10 => vec![Offset { dx: 0, dy: -1, wall: 0 }, Offset { dx: -1, dy: -1, wall: 7 }],
        // DOWN_LEFT0
        _ => vec![Offset { dx: 0, dy: 1, wall: 3 }, Offset { dx: 1, dy: 1, wall: 6 }],
    }
}

/// Where the wall with index `i` stands among the walls of its room.
pub open spec fn slot_of(i: int) -> int {
    seq![0int, 3, 0, 3, 1, 4, 1, 4, 2, 5, 2, 5][i]
}

/// Every wall that the corner offsets of a wall of a room lead to is a wall of
/// its room and ends at the first corner of that wall.
#[verifier::rlimit(50)]
pub proof fn lemma_corner_offsets(pos: Pos, i: int, k: int)
    requires
        pos.in_range(),
        walls_spec(pos).contains(wall_spec(i)),
        0 <= i < WALL_COUNT,
        0 <= k < corner_offsets_spec(i).len(),
    ensures
        ({
            let o = corner_offsets_spec(i)[k];
            let q = pos.offset(o.dx as int, o.dy as int);
            let w = wall_spec(o.wall as int);
            &&& 0 <= o.wall < WALL_COUNT
            &&& -2 <= o.dx <= 2 && -1 <= o.dy <= 1
            &&& walls_spec(q).contains(w)
            &&& super::ends_at(center_spec(q), w, center_spec(pos).x + wall_spec(i).span.0.dx, center_spec(pos).y + wall_spec(i).span.0.dy)
        }),
{
    let o = corner_offsets_spec(i)[k];
    let q = pos.offset(o.dx as int, o.dy as int);
    let ws = walls_spec(pos);
    let j = choose|j: int| 0 <= j < ws.len() && ws[j] == wall_spec(i);
    assert(walls_spec(q)[slot_of(o.wall as int)] == wall_spec(o.wall as int));
}

/// Whether the hexagon of the room at `pos` holds `p`; its left edge and its
/// two upper edges belong to it.
pub open spec fn holds(pos: Pos, p: physical::Pos) -> bool {
    let dx = p.x - center_spec(pos).x;
    let dy = p.y - center_spec(pos).y;
    let ax = if dx >= 0 { dx } else { -dx };
    -20 <= dx < 20 && dy >= -40 + ax && dy < 40 - ax
}

/// The room that `room_at_spec` gives for a point is the room whose polygon
/// holds the point.
#[verifier::rlimit(100)]
pub proof fn lemma_room_at_holds(p: physical::Pos)
    requires
        p.in_range(),
    ensures
        holds(room_at_spec(p), p),
{
}

/// No two rooms hold the same point.
#[verifier::rlimit(100)]
pub proof fn lemma_holds_unique(a: Pos, b: Pos, p: physical::Pos)
    requires
        a.in_range(),
        b.in_range(),
        holds(a, p),
        holds(b, p),
    ensures
        a == b,
{
}

/// The points from the centre of a room up to nineteen twentieths of the
/// way to the first corner of one of its walls lie in its polygon.
#[verifier::rlimit(100)]
pub proof fn lemma_toward_corner_holds(pos: Pos, k: int, t: int)
    requires
        pos.in_range(),
        0 <= k < walls_spec(pos).len(),
        0 <= t <= 19,
    ensures
        holds(pos, Shape::Hex.toward_corner(pos, walls_spec(pos)[k], t)),
{
    let w = walls_spec(pos)[k];
    let c = center_spec(pos);
    let p = Shape::Hex.toward_corner(pos, w, t);
    if pos.row % 2 == 1 {
        if k == 0 {
            assert(w == wall_spec(2));
            assert(w.span.0.dx / 20 == -1 && w.span.0.dy / 20 == 1);
            assert((w.span.0.dx / 20) * t == -1 * t && (w.span.0.dy / 20) * t == 1 * t);
            assert(p.x == c.x + -1 * t && p.y == c.y + 1 * t);
        } else if k == 1 {
            assert(w == wall_spec(6));
            assert(w.span.0.dx / 20 == -1 && w.span.0.dy / 20 == -1);
            assert((w.span.0.dx / 20) * t == -1 * t && (w.span.0.dy / 20) * t == -1 * t);
            assert(p.x == c.x + -1 * t && p.y == c.y + -1 * t);
        } else if k == 2 {
            assert(w == wall_spec(10));
            assert(w.span.0.dx / 20 == 0 && w.span.0.dy / 20 == -2);
            assert((w.span.0.dx / 20) * t == 0 * t && (w.span.0.dy / 20) * t == -2 * t);
            assert(p.x == c.x + 0 * t && p.y == c.y + -2 * t);
        } else if k == 3 {
            assert(w == wall_spec(3));
            assert(w.span.0.dx / 20 == 1 && w.span.0.dy / 20 == -1);
            assert((w.span.0.dx / 20) * t == 1 * t && (w.span.0.dy / 20) * t == -1 * t);
            assert(p.x == c.x + 1 * t && p.y == c.y + -1 * t);
        } else if k == 4 {
            assert(w == wall_spec(5));
            assert(w.span.0.dx / 20 == 1 && w.span.0.dy / 20 == 1);
            assert((w.span.0.dx / 20) * t == 1 * t && (w.span.0.dy / 20) * t == 1 * t);
            assert(p.x == c.x + 1 * t && p.y == c.y + 1 * t);
        } else {
            assert(w == wall_spec(9));
            assert(w.span.0.dx / 20 == 0 && w.span.0.dy / 20 == 2);
            assert((w.span.0.dx / 20) * t == 0 * t && (w.span.0.dy / 20) * t == 2 * t);
            assert(p.x == c.x + 0 * t && p.y == c.y + 2 * t);
        }
    } else {
        if k == 0 {
            assert(w == wall_spec(0));
            assert(w.span.0.dx / 20 == -1 && w.span.0.dy / 20 == 1);
            assert((w.span.0.dx / 20) * t == -1 * t && (w.span.0.dy / 20) * t == 1 * t);
            assert(p.x == c.x + -1 * t && p.y == c.y + 1 * t);
        } else if k == 1 {
            assert(w == wall_spec(4));
            assert(w.span.0.dx / 20 == -1 && w.span.0.dy / 20 == -1);
            assert((w.span.0.dx / 20) * t == -1 * t && (w.span.0.dy / 20) * t == -1 * t);
            assert(p.x == c.x + -1 * t && p.y == c.y + -1 * t);
        } else if k == 2 {
            assert(w == wall_spec(8));
            assert(w.span.0.dx / 20 == 0 && w.span.0.dy / 20 == -2);
            assert((w.span.0.dx / 20) * t == 0 * t && (w.span.0.dy / 20) * t == -2 * t);
            assert(p.x == c.x + 0 * t && p.y == c.y + -2 * t);
        } else if k == 3 {
            assert(w == wall_spec(1));
            assert(w.span.0.dx / 20 == 1 && w.span.0.dy / 20 == -1);
            assert((w.span.0.dx / 20) * t == 1 * t && (w.span.0.dy / 20) * t == -1 * t);
            assert(p.x == c.x + 1 * t && p.y == c.y + -1 * t);
        } else if k == 4 {
            assert(w == wall_spec(7));
            assert(w.span.0.dx / 20 == 1 && w.span.0.dy / 20 == 1);
            assert((w.span.0.dx / 20) * t == 1 * t && (w.span.0.dy / 20) * t == 1 * t);
            assert(p.x == c.x + 1 * t && p.y == c.y + 1 * t);
        } else {
            assert(w == wall_spec(11));
            assert(w.span.0.dx / 20 == 0 && w.span.0.dy / 20 == 2);
            assert((w.span.0.dx / 20) * t == 0 * t && (w.span.0.dy / 20) * t == 2 * t);
            assert(p.x == c.x + 0 * t && p.y == c.y + 2 * t);
        }
    }
}

} // verus!