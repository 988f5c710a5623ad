//! Triangular rooms.
//!
//! A room points up when the sum of its column and row is even, and down
//! otherwise; neighbours on the same row share a slanted wall.

use vstd::prelude::*;

use crate::matrix::Pos;
use crate::physical;

use super::{Angle, Offset, Shape, Wall, WallPos};

verus! {

/// The number of walls in the table.
pub const WALL_COUNT: usize = 6;

/// The left wall of a room pointing up.
pub const LEFT0: usize = 0;
/// The right wall of a room pointing down.
pub const RIGHT1: usize = 1;
/// The right wall of a room pointing up.
pub const RIGHT0: usize = 2;
/// The left wall of a room pointing down.
pub const LEFT1: usize = 3;
/// The lower wall of a room pointing up.
pub const DOWN0: usize = 4;
/// The upper wall of a room pointing down.
pub const UP1: usize = 5;

/// The wall with index `i` of this shape.
pub open spec fn wall_spec(i: int) -> Wall {
    if i == 0 {
        // LEFT0
        Wall {
            shape: Shape::Tri,
            index: 0,
            dir: (-1isize, 0isize),
            span: (Angle { dx: -20i64, dy: 20i64 }, Angle { dx: 0i64, dy: -40i64 }),
            previous: 4,
            next: 2,
        }
    } else if i == 1 {
        // RIGHT1
        Wall {
            shape: Shape::Tri,
            index: 1,
            dir: (1isize, 0isize),
            span: (Angle { dx: 20i64, dy: -20i64 }, Angle { dx: 0i64, dy: 40i64 }),
            previous: 5,
            next: 3,
        }
    } else if i == 2 {
        // RIGHT0
        Wall {
            shape: Shape::Tri,
            index: 2,
            dir: (1isize, 0isize),
            span: (Angle { dx: 0i64, dy: -40i64 }, Angle { dx: 20i64, dy: 20i64 }),
            previous: 0,
            next: 4,
        }
    } else if i == 3 {
        // LEFT1
        Wall {
            shape: Shape::Tri,
            index: 3,
            dir: (-1isize, 0isize),
            span: (Angle { dx: 0i64, dy: 40i64 }, Angle { dx: -20i64, dy: -20i64 }),
            previous: 1,
            next: 5,
        }
    } else if i == 4 {
        // DOWN0
        Wall {
            shape: Shape::Tri,
            index: 4,
            dir: (0isize, 1isize),
            span: (Angle { dx: 20i64, dy: 20i64 }, Angle { dx: -20i64, dy: 20i64 }),
            previous: 2,
            next: 0,
        }
    } else {
        // UP1
        Wall {
            shape: Shape::Tri,
            index: 5,
            dir: (0isize, -1isize),
            span: (Angle { dx: -20i64, dy: -20i64 }, Angle { dx: 20i64, dy: -20i64 }),
            previous: 3,
            next: 1,
        }
    }
}

/// Returns the wall with index `i` of this shape.
pub fn wall(i: usize) -> (r: Wall)
    requires
        i < WALL_COUNT,
    ensures
        r == wall_spec(i as int),
{
    match i {
        0 => {
            // LEFT0
            Wall {
                shape: Shape::Tri,
                index: 0,
                dir: (-1, 0),
                span: (Angle { dx: -20, dy: 20 }, Angle { dx: 0, dy: -40 }),
                previous: 4,
                next: 2,
            }
        },
        1 => {
            // RIGHT1
            Wall {
                shape: Shape::Tri,
                index: 1,
                dir: (1, 0),
                span: (Angle { dx: 20, dy: -20 }, Angle { dx: 0, dy: 40 }),
                previous: 5,
                next: 3,
            }
        },
        2 => {
            // RIGHT0
            Wall {
                shape: Shape::Tri,
                index: 2,
                dir: (1, 0),
                span: (Angle { dx: 0, dy: -40 }, Angle { dx: 20, dy: 20 }),
                previous: 0,
                next: 4,
            }
        },
        3 => {
            // LEFT1
            Wall {
                shape: Shape::Tri,
                index: 3,
                dir: (-1, 0),
                span: (Angle { dx: 0, dy: 40 }, Angle { dx: -20, dy: -20 }),
                previous: 1,
                next: 5,
            }
        },
        4 => {
            // DOWN0
            Wall {
                shape: Shape::Tri,
                index: 4,
                dir: (0, 1),
                span: (Angle { dx: 20, dy: 20 }, Angle { dx: -20, dy: 20 }),
                previous: 2,
                next: 0,
            }
        },
        _ => {
            // UP1
            Wall {
                shape: Shape::Tri,
                index: 5,
                dir: (0, -1),
                span: (Angle { dx: -20, dy: -20 }, Angle { dx: 20, dy: -20 }),
                previous: 3,
                next: 1,
            }
        },
    }
}

/// Returns the index of the wall on the other side of the wall with index
/// `wall`; the walls are arranged in back to back pairs.
pub fn back_index(wall: usize) -> (r: usize)
    requires
        wall < WALL_COUNT,
    ensures
        r == Shape::Tri.back_index_spec(wall as int),
{
    if wall % 2 == 0 {
        wall + 1
    } else {
        wall - 1
    }
}

/// Whether the room at `pos` points up.
pub open spec fn points_up(pos: Pos) -> bool {
    (pos.col + pos.row) % 2 == 0
}

/// The walls of the room at `pos`, going clockwise.
pub open spec fn walls_spec(pos: Pos) -> Seq<Wall> {
    if points_up(pos) {
        seq![wall_spec(0), wall_spec(2), wall_spec(4)]
    } else {
        seq![wall_spec(3), wall_spec(5), wall_spec(1)]
    }
}

/// Returns the walls of the room at `pos`.
pub fn walls(pos: Pos) -> (r: Vec<Wall>)
    requires
        pos.in_range(),
    ensures
        r@ == walls_spec(pos),
{
    if super::is_odd(pos.col + pos.row) {
        vec![wall(3), wall(5), wall(1)]
    } else {
        vec![wall(0), wall(2), wall(4)]
    }
}

/// The centre of the room at `pos`.
pub open spec fn center_spec(pos: Pos) -> physical::Pos {
    physical::Pos {
        x: (20 * pos.col + 20) as i64,
        y: (60 * pos.row + if points_up(pos) {
            40int
        } else {
            20int
        }) as i64,
    }
}

/// Returns the centre of the room at `pos`.
pub fn center(pos: Pos) -> (r: physical::Pos)
    requires
        pos.in_range(),
    ensures
        r == center_spec(pos),
{
    let up = !super::is_odd(pos.col + pos.row);
    physical::Pos {
        x: 20 * (pos.col as i64) + 20,
        y: 60 * (pos.row as i64) + if up {
            40
        } else {
            20
        },
    }
}

/// The room whose triangle holds `p`.
///
/// Within a row strip, `p` lies between the centres of two neighbouring
/// rooms; the slanted wall between them decides which.
pub open spec fn room_at_spec(p: physical::Pos) -> Pos {
    let row = p.y / 60;
    let ry = p.y - row * 60;
    let col = p.x / 20;
    let rx = p.x - col * 20;
    let inside = if (col + row) % 2 == 0 {
        3 * rx + ry >= 60
    } else {
        3 * rx >= ry
    };
    Pos { col: (if inside { col } else { col - 1 }) as isize, row: row as isize }
}

/// Returns the room whose triangle holds `p`.
pub fn room_at(p: physical::Pos) -> (r: Pos)
    requires
        p.in_range(),
    ensures
        r == room_at_spec(p),
        r.in_range(),
{
    let row = physical::floor_div(p.y, 60);
    let ry = p.y - row * 60;
    let col = physical::floor_div(p.x, 20);
    let rx = p.x - col * 20;
    let inside = if super::is_odd((col + row) as isize) {
        3 * rx >= ry
    } else {
        3 * rx + ry >= 60
    };
    Pos { col: (if inside { col } else { col - 1 }) as isize, row: row as isize }
}


/// The offsets to the other walls that share the first corner of the wall
/// with index `i`, going round the corner.
pub open spec fn corner_offsets_spec(i: int) -> Seq<Offset> {
    if i == 0 {
        // LEFT0
        seq![Offset { dx: -1isize, dy: 0isize, wall: 3usize }, Offset { dx: -2isize, dy: 0isize, wall: 4usize }, Offset { dx: -2isize, dy: 1isize, wall: 1usize }, Offset { dx: -1isize, dy: 1isize, wall: 2usize }, Offset { dx: 0isize, dy: 1isize, wall: 5usize }]
    } else if i == 1 {
        // RIGHT1
        seq![Offset { dx: 1isize, dy: 0isize, wall: 2usize }, Offset { dx: 2isize, dy: 0isize, wall: 5usize }, Offset { dx: 2isize, dy: -1isize, wall: 0usize }, Offset { dx: 1isize, dy: -1isize, wall: 3usize }, Offset { dx: 0isize, dy: -1isize, wall: 4usize }]
    } else if i == 2 {
        // RIGHT0
        seq![Offset { dx: 1isize, dy: 0isize, wall: 5usize }, Offset { dx: 1isize, dy: -1isize, wall: 0usize }, Offset { dx: 0isize, dy: -1isize, wall: 3usize }, Offset { dx: -1isize, dy: -1isize, wall: 4usize }, Offset { dx: -1isize, dy: 0isize, wall: 1usize }]
    } else if i == 3 {
        // LEFT1
        seq![Offset { dx: -1isize, dy: 0isize, wall: 4usize }, Offset { dx: -1isize, dy: 1isize, wall: 1usize }, Offset { dx: 0isize, dy: 1isize, wall: 2usize }, Offset { dx: 1isize, dy: 1isize, wall: 5usize }, Offset { dx: 1isize, dy: 0isize, wall: 0usize }]
    } else if i == 4 {
        // DOWN0
        seq![Offset { dx: 0isize, dy: 1isize, wall: 1usize }, Offset { dx: 1isize, dy: 1isize, wall: 2usize }, Offset { dx: 2isize, dy: 1isize, wall: 5usize }, Offset { dx: 2isize, dy: 0isize, wall: 0usize }, Offset { dx: 1isize, dy: 0isize, wall: 3usize }]
    } else {
        // UP1
        seq![Offset { dx: 0isize, dy: -1isize, wall: 0usize }, Offset { dx: -1isize, dy: -1isize, wall: 3usize }, Offset { dx: -2isize, dy: -1isize, wall: 4usize }, Offset { dx: -2isize, dy: 0isize, wall: 1usize }, Offset { dx: -1isize, dy: 0isize, wall: 2usize }]
    }
}

/// Returns the offsets to the other walls that share the first corner of the
/// wall with index `i`.
pub fn corner_offsets(i: usize) -> (r: Vec<Offset>)
    requires
        i < WALL_COUNT,
    ensures
        r@ == corner_offsets_spec(i as int),
{
    match i {
        // LEFT0
        0 => vec![Offset { dx: -1, dy: 0, wall: 3 }, Offset { dx: -2, dy: 0, wall: 4 }, Offset { dx: -2, dy: 1, wall: 1 }, Offset { dx: -1, dy: 1, wall: 2 }, Offset { dx: 0, dy: 1, wall: 5 }],
        // RIGHT1
        1 => vec![Offset { dx: 1, dy: 0, wall: 2 }, Offset { dx: 2, dy: 0, wall: 5 }, Offset { dx: 2, dy: -1, wall: 0 }, Offset { dx: 1, dy: -1, wall: 3 }, Offset { dx: 0, dy: -1, wall: 4 }],
        // RIGHT0
        2 => vec![Offset { dx: 1, dy: 0, wall: 5 }, Offset { dx: 1, dy: -1, wall: 0 }, Offset { dx: 0, dy: -1, wall: 3 }, Offset { dx: -1, dy: -1, wall: 4 }, Offset { dx: -1, dy: 0, wall: 1 }],
        // LEFT1
        3 => vec![Offset { dx: -1, dy: 0, wall: 4 }, Offset { dx: -1, dy: 1, wall: 1 }, Offset { dx: 0, dy: 1, wall: 2 }, Offset { dx: 1, dy: 1, wall: 5 }, Offset { dx: 1, dy: 0, wall: 0 }],
        // DOWN0
        4 => vec![Offset { dx: 0, dy: 1, wall: 1 }, Offset { dx: 1, dy: 1, wall: 2 }, Offset { dx: 2, dy: 1, wall: 5 }, Offset { dx: 2, dy: 0, wall: 0 }, Offset { dx: 1, dy: 0, wall: 3 }],
        // UP1
        _ => vec![Offset { dx: 0, dy: -1, wall: 0 }, Offset { dx: -1, dy: -1, wall: 3 }, Offset { dx: -2, dy: -1, wall: 4 }, Offset { dx: -2, dy: 0, wall: 1 }, Offset { dx: -1, dy: 0, wall: 2 }],
    }
}

/// Where the wall with index `i` stands among the walls of its room.
pub open spec fn slot_of(i: int) -> int {
    seq![0int, 2, 1, 0, 2, 1][i]
}

/// Every wall that the corner offsets of a wall of a room lead to is a wall of
/// its room and ends at the first corner of that wall.
#[verifier::rlimit(50)]
pub proof fn lemma_corner_offsets(pos: Pos, i: int, k: int)
    requires
        pos.in_range(),
        walls_spec(pos).contains(wall_spec(i)),
        0 <= i < WALL_COUNT,
        0 <= k < corner_offsets_spec(i).len(),
    ensures
        ({
            let o = corner_offsets_spec(i)[k];
            let q = pos.offset(o.dx as int, o.dy as int);
            let w = wall_spec(o.wall as int);
            &&& 0 <= o.wall < WALL_COUNT
            &&& -2 <= o.dx <= 2 && -1 <= o.dy <= 1
            &&& walls_spec(q).contains(w)
            &&& super::ends_at(center_spec(q), w, center_spec(pos).x + wall_spec(i).span.0.dx, center_spec(pos).y + wall_spec(i).span.0.dy)
        }),
{
    let o = corner_offsets_spec(i)[k];
    let q = pos.offset(o.dx as int, o.dy as int);
    let ws = walls_spec(pos);
    let j = choose|j: int| 0 <= j < ws.len() && ws[j] == wall_spec(i);
    assert(walls_spec(q)[slot_of(o.wall as int)] == wall_spec(o.wall as int));
}

/// Whether the triangle of the room at `pos` holds `p`; the edges facing up
/// and left belong to it.
pub open spec fn holds(pos: Pos, p: physical::Pos) -> bool {
    let dx = p.x - center_spec(pos).x;
    let dy = p.y - center_spec(pos).y;
    if points_up(pos) {
        dy < 20 && 3 * dx + dy + 40 >= 0 && 3 * dx < dy + 40
    } else {
        dy >= -20 && 3 * dx >= dy - 40 && 3 * dx < 40 - dy
    }
}

/// The room that `room_at_spec` gives for a point is the room whose polygon
/// holds the point.
#[verifier::rlimit(100)]
pub proof fn lemma_room_at_holds(p: physical::Pos)
    requires
        p.in_range(),
    ensures
        holds(room_at_spec(p), p),
{
    let row = p.y / 60;
    let col = p.x / 20;
    vstd::arithmetic::div_mod::lemma_fundamental_div_mod(p.y as int, 60);
    vstd::arithmetic::div_mod::lemma_fundamental_div_mod(p.x as int, 20);
    vstd::arithmetic::div_mod::lemma_mod_bound(p.y as int, 60);
    vstd::arithmetic::div_mod::lemma_mod_bound(p.x as int, 20);
    let ry = p.y - row * 60;
    let rx = p.x - col * 20;
    assert(0 <= ry < 60 && 0 <= rx < 20);
    let r = room_at_spec(p);
    let c = center_spec(r);
    if (col + row) % 2 == 0 {
        if 3 * rx + ry >= 60 {
            assert(r == Pos { col: col as isize, row: row as isize });
            assert(points_up(r));
            assert(c.x == 20 * col + 20 && c.y == 60 * row + 40);
        } else {
            assert(r == Pos { col: (col - 1) as isize, row: row as isize });
            assert(!points_up(r));
            assert(c.x == 20 * col && c.y == 60 * row + 20);
        }
    } else {
        if 3 * rx >= ry {
            assert(r == Pos { col: col as isize, row: row as isize });
            assert(!points_up(r));
            assert(c.x == 20 * col + 20 && c.y == 60 * row + 20);
        } else {
            assert(r == Pos { col: (col - 1) as isize, row: row as isize });
            assert(points_up(r));
            assert(c.x == 20 * col && c.y == 60 * row + 40);
        }
    }
}

/// No two rooms hold the same point.
#[verifier::rlimit(100)]
pub proof fn lemma_holds_unique(a: Pos, b: Pos, p: physical::Pos)
    requires
        a.in_range(),
        b.in_range(),
        holds(a, p),
        holds(b, p),
    ensures
        a == b,
{
}

/// The points from the centre of a room up to nineteen twentieths of the
/// way to the first corner of one of its walls lie in its polygon.
#[verifier::rlimit(100)]
pub proof fn lemma_toward_corner_holds(pos: Pos, k: int, t: int)
    requires
        pos.in_range(),
        0 <= k < walls_spec(pos).len(),
        0 <= t <= 19,
    ensures
        holds(pos, Shape::Tri.toward_corner(pos, walls_spec(pos)[k], t)),
{
    let w = walls_spec(pos)[k];
    let c = center_spec(pos);
    let p = Shape::Tri.toward_corner(pos, w, t);
    if points_up(pos) {
        if k == 0 {
            assert(w == wall_spec(0));
            assert(w.span.0.dx / 20 == -1 && w.span.0.dy / 20 == 1);
            assert((w.span.0.dx / 20) * t == -1 * t && (w.span.0.dy / 20) * t == 1 * t);
            assert(p.x == c.x + -1 * t && p.y == c.y + 1 * t);
        } else if k == 1 {
            assert(w == wall_spec(2));
            assert(w.span.0.dx / 20 == 0 && w.span.0.dy / 20 == -2);
            assert((w.span.0.dx / 20) * t == 0 * t && (w.span.0.dy / 20) * t == -2 * t);
            assert(p.x == c.x + 0 * t && p.y == c.y + -2 * t);
        } else {
            assert(w == wall_spec(4));
            assert(w.span.0.dx / 20 == 1 && w.span.0.dy / 20 == 1);
            assert((w.span.0.dx / 20) * t == 1 * t && (w.span.0.dy / 20) * t == 1 * t);
            assert(p.x == c.x + 1 * t && p.y == c.y + 1 * t);
        }
    } else {
        if k == 0 {
            assert(w == wall_spec(3));
            assert(w.span.0.dx / 20 == 0 && w.span.0.dy / 20 == 2);
            assert((w.span.0.dx / 20) * t == 0 * t && (w.span.0.dy / 20) * t == 2 * t);
            assert(p.x == c.x + 0 * t && p.y == c.y + 2 * t);
        } else if k == 1 {
            assert(w == wall_spec(5));
            assert(w.span.0.dx / 20 == -1 && w.span.0.dy / 20 == -1);
            assert((w.span.0.dx / 20) * t == -1 * t && (w.span.0.dy / 20) * t == -1 * t);
            assert(p.x == c.x + -1 * t && p.y == c.y + -1 * t);
        } else {
            assert(w == wall_spec(1));
            assert(w.span.0.dx / 20 == 1 && w.span.0.dy / 20 == -1);
            assert((w.span.0.dx / 20) * t == 1 * t && (w.span.0.dy / 20) * t == -1 * t);
            assert(p.x == c.x + 1 * t && p.y == c.y + -1 * t);
        }
    }
}

} // verus!