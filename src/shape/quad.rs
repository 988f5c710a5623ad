//! Quadrilateral rooms.

use vstd::prelude::*;

use crate::matrix::Pos;
use crate::physical;

use super::{Angle, Offset, Shape, Wall, WallPos};

verus! {

/// The number of walls in the table.
pub const WALL_COUNT: usize = 4;

/// The left wall.
pub const LEFT: usize = 0;
/// The right wall.
pub const RIGHT: usize = 1;
/// The upper wall.
pub const UP: usize = 2;
/// The lower wall.
pub const DOWN: usize = 3;

/// The wall with index `i` of this shape.
pub open spec fn wall_spec(i: int) -> Wall {
    if i == 0 {
        // LEFT
        Wall {
            shape: Shape::Quad,
            index: 0,
            dir: (-1isize, 0isize),
            span: (Angle { dx: -20i64, dy: 20i64 }, Angle { dx: -20i64, dy: -20i64 }),
            previous: 3,
            next: 2,
        }
    } else if i == 1 {
        // RIGHT
        Wall {
            shape: Shape::Quad,
            index: 1,
            dir: (1isize, 0isize),
            span: (Angle { dx: 20i64, dy: -20i64 }, Angle { dx: 20i64, dy: 20i64 }),
            previous: 2,
            next: 3,
        }
    } else if i == 2 {
        // UP
        Wall {
            shape: Shape::Quad,
            index: 2,
            dir: (0isize, -1isize),
            span: (Angle { dx: -20i64, dy: -20i64 }, Angle { dx: 20i64, dy: -20i64 }),
            previous: 0,
            next: 1,
        }
    } else {
        // DOWN
        Wall {
            shape: Shape::Quad,
            index: 3,
            dir: (0isize, 1isize),
            span: (Angle { dx: 20i64, dy: 20i64 }, Angle { dx: -20i64, dy: 20i64 }),
            previous: 1,
            next: 0,
        }
    }
}

/// Returns the wall with index `i` of this shape.
pub fn wall(i: usize) -> (r: Wall)
    requires
        i < WALL_COUNT,
    ensures
        r == wall_spec(i as int),
{
    match i {
        0 => {
            // LEFT
            Wall {
                shape: Shape::Quad,
                index: 0,
                dir: (-1, 0),
                span: (Angle { dx: -20, dy: 20 }, Angle { dx: -20, dy: -20 }),
                previous: 3,
                next: 2,
            }
        },
        1 => {
            // RIGHT
            Wall {
                shape: Shape::Quad,
                index: 1,
                dir: (1, 0),
                span: (Angle { dx: 20, dy: -20 }, Angle { dx: 20, dy: 20 }),
                previous: 2,
                next: 3,
            }
        },
        2 => {
            // UP
            Wall {
                shape: Shape::Quad,
                index: 2,
                dir: (0, -1),
                span: (Angle { dx: -20, dy: -20 }, Angle { dx: 20, dy: -20 }),
                previous: 0,
                next: 1,
            }
        },
        _ => {
            // DOWN
            Wall {
                shape: Shape::Quad,
                index: 3,
                dir: (0, 1),
                span: (Angle { dx: 20, dy: 20 }, Angle { dx: -20, dy: 20 }),
                previous: 1,
                next: 0,
            }
        },
    }
}

/// Returns the index of the wall on the other side of the wall with index
/// `wall`; the walls are arranged in back to back pairs.
pub fn back_index(wall: usize) -> (r: usize)
    requires
        wall < WALL_COUNT,
    ensures
        r == Shape::Quad.back_index_spec(wall as int),
{
    if wall % 2 == 0 {
        wall + 1
    } else {
        wall - 1
    }
}

/// Returns the wall on the opposite side of the room of `wall_pos`; it is
/// the wall parallel to it.
pub fn opposite(wall_pos: WallPos) -> (r: Option<Wall>)
    requires
        wall_pos.1.index < WALL_COUNT,
    ensures
        r == Some(wall_spec(Shape::Quad.back_index_spec(wall_pos.1.index as int))),
{
    Some(wall(back_index(wall_pos.1.index)))
}

/// The walls of the room at `pos`, going clockwise from the left wall.
pub open spec fn walls_spec(pos: Pos) -> Seq<Wall> {
    seq![wall_spec(0), wall_spec(2), wall_spec(1), wall_spec(3)]
}

/// Returns the walls of the room at `pos`.
pub fn walls(pos: Pos) -> (r: Vec<Wall>)
    ensures
        r@ == walls_spec(pos),
{
    vec![wall(0), wall(2), wall(1), wall(3)]
}

/// The centre of the room at `pos`.
pub open spec fn center_spec(pos: Pos) -> physical::Pos {
    physical::Pos { x: (40 * pos.col + 20) as i64, y: (40 * pos.row + 20) as i64 }
}

/// Returns the centre of the room at `pos`.
pub fn center(pos: Pos) -> (r: physical::Pos)
    requires
        pos.in_range(),
    ensures
        r == center_spec(pos),
{
    physical::Pos { x: 40 * (pos.col as i64) + 20, y: 40 * (pos.row as i64) + 20 }
}

/// The room whose square holds `p`.
pub open spec fn room_at_spec(p: physical::Pos) -> Pos {
    Pos { col: (p.x / 40) as isize, row: (p.y / 40) as isize }
}

/// Returns the room whose square holds `p`.
pub fn room_at(p: physical::Pos) -> (r: Pos)
    requires
        p.in_range(),
    ensures
        r == room_at_spec(p),
        r.in_range(),
{
    let col = physical::floor_div(p.x, 40);
    let row = physical::floor_div(p.y, 40);
    Pos { col: col as isize, row: row as isize }
}


/// The offsets to the other walls that share the first corner of the wall
/// with index `i`, going round the corner.
pub open spec fn corner_offsets_spec(i: int) -> Seq<Offset> {
    if i == 0 {
        // LEFT
        seq![Offset { dx: -1isize, dy: 0isize, wall: 3usize }, Offset { dx: -1isize, dy: 1isize, wall: 1usize }, Offset { dx: 0isize, dy: 1isize, wall: 2usize }]
    } else if i == 1 {
        // RIGHT
        seq![Offset { dx: 1isize, dy: 0isize, wall: 2usize }, Offset { dx: 1isize, dy: -1isize, wall: 0usize }, Offset { dx: 0isize, dy: -1isize, wall: 3usize }]
    } else if i == 2 {
        // UP
        seq![Offset { dx: 0isize, dy: -1isize, wall: 0usize }, Offset { dx: -1isize, dy: -1isize, wall: 3usize }, Offset { dx: -1isize, dy: 0isize, wall: 1usize }]
    } else {
        // DOWN
        seq![Offset { dx: 0isize, dy: 1isize, wall: 1usize }, Offset { dx: 1isize, dy: 1isize, wall: 2usize }, Offset { dx: 1isize, dy: 0isize, wall: 0usize }]
    }
}

/// Returns the offsets to the other walls that share the first corner of the
/// wall with index `i`.
pub fn corner_offsets(i: usize) -> (r: Vec<Offset>)
    requires
        i < WALL_COUNT,
    ensures
        r@ == corner_offsets_spec(i as int),
{
    match i {
        // LEFT
        0 => vec![Offset { dx: -1, dy: 0, wall: 3 }, Offset { dx: -1, dy: 1, wall: 1 }, Offset { dx: 0, dy: 1, wall: 2 }],
        // RIGHT
        1 => vec![Offset { dx: 1, dy: 0, wall: 2 }, Offset { dx: 1, dy: -1, wall: 0 }, Offset { dx: 0, dy: -1, wall: 3 }],
        // UP
        2 => vec![Offset { dx: 0, dy: -1, wall: 0 }, Offset { dx: -1, dy: -1, wall: 3 }, Offset { dx: -1, dy: 0, wall: 1 }],
        // DOWN
        _ => vec![Offset { dx: 0, dy: 1, wall: 1 }, Offset { dx: 1, dy: 1, wall: 2 }, Offset { dx: 1, dy: 0, wall: 0 }],
    }
}

/// Where the wall with index `i` stands among the walls of its room.
pub open spec fn slot_of(i: int) -> int {
    seq![0int, 2, 1, 3][i]
}

/// Every wall that the corner offsets of a wall of a room lead to is a wall of
/// its room and ends at the first corner of that wall.
#[verifier::rlimit(50)]
pub proof fn lemma_corner_offsets(pos: Pos, i: int, k: int)
    requires
        pos.in_range(),
        walls_spec(pos).contains(wall_spec(i)),
        0 <= i < WALL_COUNT,
        0 <= k < corner_offsets_spec(i).len(),
    ensures
        ({
            let o = corner_offsets_spec(i)[k];
            let q = pos.offset(o.dx as int, o.dy as int);
            let w = wall_spec(o.wall as int);
            &&& 0 <= o.wall < WALL_COUNT
            &&& -2 <= o.dx <= 2 && -1 <= o.dy <= 1
            &&& walls_spec(q).contains(w)
            &&& super::ends_at(center_spec(q), w, center_spec(pos).x + wall_spec(i).span.0.dx, center_spec(pos).y + wall_spec(i).span.0.dy)
        }),
{
    let o = corner_offsets_spec(i)[k];
    let q = pos.offset(o.dx as int, o.dy as int);
    let ws = walls_spec(pos);
    let j = choose|j: int| 0 <= j < ws.len() && ws[j] == wall_spec(i);
    assert(walls_spec(q)[slot_of(o.wall as int)] == wall_spec(o.wall as int));
}

/// Whether the square of the room at `pos` holds `p`; its left and upper
/// edges belong to it.
pub open spec fn holds(pos: Pos, p: physical::Pos) -> bool {
    let dx = p.x - center_spec(pos).x;
    let dy = p.y - center_spec(pos).y;
    -20 <= dx < 20 && -20 <= dy < 20
}

/// The room that `room_at_spec` gives for a point is the room whose polygon
/// holds the point.
#[verifier::rlimit(100)]
pub proof fn lemma_room_at_holds(p: physical::Pos)
    requires
        p.in_range(),
    ensures
        holds(room_at_spec(p), p),
{
}

/// No two rooms hold the same point.
#[verifier::rlimit(100)]
pub proof fn lemma_holds_unique(a: Pos, b: Pos, p: physical::Pos)
    requires
        a.in_range(),
        b.in_range(),
        holds(a, p),
        holds(b, p),
    ensures
        a == b,
{
}

/// The points from the centre of a room up to nineteen twentieths of the
/// way to the first corner of one of its walls lie in its polygon.
#[verifier::rlimit(100)]
pub proof fn lemma_toward_corner_holds(pos: Pos, k: int, t: int)
    requires
        pos.in_range(),
        0 <= k < walls_spec(pos).len(),
        0 <= t <= 19,
    ensures
        holds(pos, Shape::Quad.toward_corner(pos, walls_spec(pos)[k], t)),
{
    if k == 0 {
        assert(walls_spec(pos)[0] == walls_spec(pos)[k]);
    } else if k == 1 {
        assert(walls_spec(pos)[1] == walls_spec(pos)[k]);
    } else if k == 2 {
        assert(walls_spec(pos)[2] == walls_spec(pos)[k]);
    }
}

} // verus!