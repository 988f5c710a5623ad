//! Room shapes, their wall tables and their geometry.

use vstd::prelude::*;

use crate::matrix;
use crate::physical;

pub mod hex;
pub mod quad;
pub mod tri;

verus! {

/// The shape of the rooms of a maze.
#[derive(Clone, Copy, Debug, PartialEq, Eq, Hash, Structural)]
pub enum Shape {
    /// Triangular rooms, three walls each.
    Tri,
    /// Quadrilateral rooms, four walls each.
    Quad,
    /// Hexagonal rooms, six walls each.
    Hex,
}

/// A corner of a room, as the vector from the room's centre to the corner.
#[derive(Clone, Copy, Debug, PartialEq, Eq, Hash, Structural)]
pub struct Angle {
    /// The horizontal component.
    pub dx: i64,
    /// The vertical component.
    pub dy: i64,
}

/// An offset from a wall to another wall that shares its first corner: the
/// column and row offset of that wall's room, and its index.
#[derive(Clone, Copy, Debug, PartialEq, Eq, Hash, Structural)]
pub struct Offset {
    /// The column offset.
    pub dx: isize,
    /// The row offset.
    pub dy: isize,
    /// The index of the wall.
    pub wall: usize,
}

/// A wall of a room.
///
/// A wall is one entry of its shape's static wall table. It has an index,
/// used to generate bit masks, and a direction, which is the offset of the
/// room on the other side of it.
#[derive(Clone, Copy, Debug, Hash)]
pub struct Wall {
    /// The shape to which this wall belongs.
    pub shape: Shape,
    /// The index of this wall in its shape's table.
    pub index: usize,
    /// The column and row offset of the room on the other side of this wall.
    pub dir: (isize, isize),
    /// The span of this wall: its first corner and its last corner, in
    /// increasing angle.
    pub span: (Angle, Angle),
    /// The index of the previous wall of the same room, going clockwise.
    pub previous: usize,
    /// The index of the next wall of the same room, going clockwise.
    pub next: usize,
}

impl PartialEq for Wall {
    /// Walls are equal when they are the same entry of the same table.
    fn eq(&self, other: &Wall) -> (r: bool) {
        self.shape == other.shape && self.index == other.index && self.dir.0 == other.dir.0
            && self.dir.1 == other.dir.1
    }
}

impl vstd::std_specs::cmp::PartialEqSpecImpl for Wall {
    open spec fn obeys_eq_spec() -> bool {
        true
    }

    open spec fn eq_spec(&self, other: &Wall) -> bool {
        self.shape == other.shape && self.index == other.index && self.dir == other.dir
    }
}

impl Eq for Wall {

}

/// One concrete wall: a room position and a wall of that room.
pub type WallPos = (matrix::Pos, Wall);

/// The cross product of two vectors; positive when `b` lies clockwise of `a`
/// on screen, that is at a larger angle, by less than half a turn.
pub open spec fn cross(ax: int, ay: int, bx: int, by: int) -> int {
    ax * by - ay * bx
}

impl Wall {
    /// Whether the direction `(dx, dy)` lies in the half-open angular span of
    /// this wall: at or after its first corner and before its last.
    pub open spec fn in_span_spec(self, dx: int, dy: int) -> bool {
        &&& cross(self.span.0.dx as int, self.span.0.dy as int, dx, dy) >= 0
        &&& cross(dx, dy, self.span.1.dx as int, self.span.1.dy as int) > 0
    }

    /// The bit mask for this wall.
    pub open spec fn mask_spec(self) -> u32 {
        (1u32 << self.index) as u32
    }

    /// Returns the bit mask for this wall.
    pub fn mask(&self) -> (r: u32)
        requires
            self.index < 32,
        ensures
            r == self.mask_spec(),
    {
        1u32 << (self.index as u32)
    }

    /// Whether the direction `(dx, dy)` lies in the span of this wall.
    pub fn in_span(&self, dx: i64, dy: i64) -> (r: bool)
        requires
            -0x1_0000_0000 < dx < 0x1_0000_0000,
            -0x1_0000_0000 < dy < 0x1_0000_0000,
            -40 <= self.span.0.dx <= 40,
            -40 <= self.span.0.dy <= 40,
            -40 <= self.span.1.dx <= 40,
            -40 <= self.span.1.dy <= 40,
        ensures
            r == self.in_span_spec(dx as int, dy as int),
    {
        let (a, b) = self.span;
        proof {
            lemma_small_product(a.dx as int, dy as int);
            lemma_small_product(a.dy as int, dx as int);
            lemma_small_product(b.dy as int, dx as int);
            lemma_small_product(b.dx as int, dy as int);
        }
        a.dx * dy - a.dy * dx >= 0 && dx * b.dy - dy * b.dx > 0
    }
}

/// A corner component times a coordinate difference stays far from the
/// bounds of `i64`.
pub proof fn lemma_small_product(a: int, b: int)
    requires
        -40 <= a <= 40,
        -0x1_0000_0000 < b < 0x1_0000_0000,
    ensures
        -0x40_0000_0000 < a * b < 0x40_0000_0000,
        a * b == b * a,
{
    assert(-0x40_0000_0000 < a * b < 0x40_0000_0000) by (nonlinear_arith)
        requires
            -40 <= a <= 40,
            -0x1_0000_0000 < b < 0x1_0000_0000,
    ;
}

/// Whether `n` is odd.
pub fn is_odd(n: isize) -> (r: bool)
    requires
        n > isize::MIN,
    ensures
        r == (n % 2 == 1),
{
    if n >= 0 {
        (n as usize) % 2 == 1
    } else {
        let m = (-(n + 1)) as usize;
        m % 2 == 0
    }
}

impl Shape {
    /// The number of walls in this shape's table.
    pub open spec fn table_len(self) -> int {
        match self {
            Shape::Tri => tri::WALL_COUNT as int,
            Shape::Quad => quad::WALL_COUNT as int,
            Shape::Hex => hex::WALL_COUNT as int,
        }
    }

    /// The number of walls of each room.
    pub open spec fn wall_count_spec(self) -> int {
        match self {
            Shape::Tri => 3,
            Shape::Quad => 4,
            Shape::Hex => 6,
        }
    }

    /// The number of walls of each room.
    pub fn wall_count(self) -> (r: usize)
        ensures
            r == self.wall_count_spec(),
    {
        match self {
            Shape::Tri => 3,
            Shape::Quad => 4,
            Shape::Hex => 6,
        }
    }

    /// The wall with index `i` in this shape's table.
    pub open spec fn wall_spec(self, i: int) -> Wall {
        match self {
            Shape::Tri => tri::wall_spec(i),
            Shape::Quad => quad::wall_spec(i),
            Shape::Hex => hex::wall_spec(i),
        }
    }

    /// Whether `w` is an entry of this shape's wall table.
    pub open spec fn has_wall(self, w: Wall) -> bool {
        0 <= w.index < self.table_len() && w == self.wall_spec(w.index as int)
    }

    /// Returns the wall with index `i` in this shape's table.
    pub fn wall(self, i: usize) -> (r: Wall)
        requires
            i < self.table_len(),
        ensures
            r == self.wall_spec(i as int),
    {
        match self {
            Shape::Tri => tri::wall(i),
            Shape::Quad => quad::wall(i),
            Shape::Hex => hex::wall(i),
        }
    }

    /// The index of the wall on the other side of the wall with index `i`.
    pub open spec fn back_index_spec(self, i: int) -> int {
        if i % 2 == 0 {
            i + 1
        } else {
            i - 1
        }
    }

    /// The wall on the back of `wall_pos`: the same physical wall seen from
    /// the neighbouring room.
    pub open spec fn back_spec(self, wall_pos: WallPos) -> WallPos {
        let (pos, wall) = wall_pos;
        (
            pos.offset(wall.dir.0 as int, wall.dir.1 as int),
            self.wall_spec(self.back_index_spec(wall.index as int)),
        )
    }

    /// The index of the wall on the opposite side of a room, if the shape has
    /// an even number of walls.
    pub open spec fn opposite_index_spec(self, i: int) -> Option<int> {
        match self {
            Shape::Tri => None,
            Shape::Quad => Some(self.back_index_spec(i)),
            Shape::Hex => Some(hex::opposite_index_spec(i)),
        }
    }

    /// The walls of the room at `pos`, going clockwise.
    pub open spec fn walls_spec(self, pos: matrix::Pos) -> Seq<Wall> {
        match self {
            Shape::Tri => tri::walls_spec(pos),
            Shape::Quad => quad::walls_spec(pos),
            Shape::Hex => hex::walls_spec(pos),
        }
    }

    /// The physical centre of the room at `pos`.
    pub open spec fn center_spec(self, pos: matrix::Pos) -> physical::Pos {
        match self {
            Shape::Tri => tri::center_spec(pos),
            Shape::Quad => quad::center_spec(pos),
            Shape::Hex => hex::center_spec(pos),
        }
    }

    /// The room whose area holds the physical position `p`.
    pub open spec fn room_at_spec(self, p: physical::Pos) -> matrix::Pos {
        match self {
            Shape::Tri => tri::room_at_spec(p),
            Shape::Quad => quad::room_at_spec(p),
            Shape::Hex => hex::room_at_spec(p),
        }
    }
}

/// A rectangle described by its corner closest to negative infinity and the
/// lengths of its sides.
#[derive(Clone, Copy, Debug, PartialEq, Eq, Hash, Structural)]
pub struct ViewBox {
    /// The corner with the smallest coordinates.
    pub corner: physical::Pos,
    /// The width.
    pub width: i64,
    /// The height.
    pub height: i64,
}

impl ViewBox {
    /// Whether the physical position `(x, y)` lies in this rectangle, edges
    /// included.
    pub open spec fn holds(self, x: int, y: int) -> bool {
        self.corner.x <= x <= self.corner.x + self.width && self.corner.y <= y <= self.corner.y
            + self.height
    }

    /// Creates a view box centred around `pos`; for odd sides the centre is
    /// rounded towards the corner.
    pub fn centered_at(pos: physical::Pos, width: i64, height: i64) -> (r: ViewBox)
        requires
            pos.in_range(),
            0 <= width < physical::PHYS_LIMIT,
            0 <= height < physical::PHYS_LIMIT,
        ensures
            r.corner.x == pos.x - width / 2,
            r.corner.y == pos.y - height / 2,
            r.width == width,
            r.height == height,
    {
        ViewBox {
            corner: physical::Pos { x: pos.x - width / 2, y: pos.y - height / 2 },
            width,
            height,
        }
    }

    /// Flattens this view box to `(x, y, width, height)`.
    pub fn tuple(self) -> (r: (i64, i64, i64, i64))
        ensures
            r == (self.corner.x, self.corner.y, self.width, self.height),
    {
        (self.corner.x, self.corner.y, self.width, self.height)
    }

    /// Moves every side `d` units away from the centre; a negative `d`
    /// contracts the box.
    pub fn expand(self, d: i64) -> (r: ViewBox)
        requires
            self.corner.in_range(),
            -physical::PHYS_LIMIT < self.width < physical::PHYS_LIMIT,
            -physical::PHYS_LIMIT < self.height < physical::PHYS_LIMIT,
            -physical::PHYS_LIMIT < d < physical::PHYS_LIMIT,
        ensures
            r.corner.x == self.corner.x - d,
            r.corner.y == self.corner.y - d,
            r.width == self.width + 2 * d,
            r.height == self.height + 2 * d,
    {
        ViewBox {
            corner: physical::Pos { x: self.corner.x - d, y: self.corner.y - d },
            width: self.width + 2 * d,
            height: self.height + 2 * d,
        }
    }

    /// The centre of this view box, rounded towards the corner.
    pub fn center(self) -> (r: physical::Pos)
        requires
            self.corner.in_range(),
            0 <= self.width < physical::PHYS_LIMIT,
            0 <= self.height < physical::PHYS_LIMIT,
        ensures
            r.x == self.corner.x + self.width / 2,
            r.y == self.corner.y + self.height / 2,
    {
        physical::Pos { x: self.corner.x + self.width / 2, y: self.corner.y + self.height / 2 }
    }
}

/// Whether `(x, y)` is the first corner of a wall of a room in the first or
/// the last column of a matrix of `cols` columns and `rows` rows.
pub open spec fn is_edge_corner(shape: Shape, cols: int, rows: int, x: int, y: int) -> bool {
    exists|row: int, last: bool, k: int|
        0 <= row < rows && 0 <= k < shape.wall_count_spec() && #[trigger] edge_corner(
            shape,
            cols,
            row,
            last,
            k,
        ) == (x, y)
}

/// The first corner of the `k`th wall of the room on row `row` and in the
/// first column, or the last one if `last`.
pub open spec fn edge_corner(shape: Shape, cols: int, row: int, last: bool, k: int) -> (int, int) {
    let pos = matrix::Pos { col: (if last { cols - 1 } else { 0 }) as isize, row: row as isize };
    let c = shape.center_spec(pos);
    let w = shape.walls_spec(pos)[k];
    (c.x + w.span.0.dx, c.y + w.span.0.dy)
}

impl Shape {
    /// The direction from the centre of the room holding `p` to `p`; the
    /// centre itself counts as lying along the positive `x` axis.
    pub open spec fn direction_spec(self, p: physical::Pos) -> (int, int) {
        let c = self.center_spec(self.room_at_spec(p));
        if p.x == c.x && p.y == c.y {
            (1, 0)
        } else {
            (p.x - c.x, p.y - c.y)
        }
    }

    /// The point `t` twentieths of the way from the centre of the room at
    /// `pos` to the first corner of `wall`.
    pub open spec fn toward_corner(self, pos: matrix::Pos, wall: Wall, t: int) -> physical::Pos {
        let c = self.center_spec(pos);
        physical::Pos {
            x: (c.x + (wall.span.0.dx / 20) * t) as i64,
            y: (c.y + (wall.span.0.dy / 20) * t) as i64,
        }
    }

    /// Whether the polygon of the room at `pos` holds `p`.
    pub open spec fn holds_spec(self, pos: matrix::Pos, p: physical::Pos) -> bool {
        match self {
            Shape::Tri => tri::holds(pos, p),
            Shape::Quad => quad::holds(pos, p),
            Shape::Hex => hex::holds(pos, p),
        }
    }

    /// Returns the index of the wall on the other side of the wall with index
    /// `i`.
    pub fn back_index(self, i: usize) -> (r: usize)
        requires
            i < self.table_len(),
        ensures
            r == self.back_index_spec(i as int),
            r < self.table_len(),
    {
        match self {
            Shape::Tri => tri::back_index(i),
            Shape::Quad => quad::back_index(i),
            Shape::Hex => hex::back_index(i),
        }
    }

    /// Returns the back of a wall: the same wall seen from the neighbouring
    /// room.
    pub fn back(self, wall_pos: WallPos) -> (r: WallPos)
        requires
            wall_pos.0.in_range(),
            self.has_wall(wall_pos.1),
        ensures
            r == self.back_spec(wall_pos),
            self.has_wall(r.1),
    {
        let (pos, wall) = wall_pos;
        proof {
            lemma_wall_facts(self, wall.index as int);
        }
        let other = matrix::Pos { col: pos.col + wall.dir.0, row: pos.row + wall.dir.1 };
        let b = self.back_index(wall.index);
        proof {
            lemma_wall_facts(self, b as int);
        }
        (other, self.wall(b))
    }

    /// Returns the wall on the opposite side of the room of `wall_pos`, or
    /// `None` for rooms with an odd number of walls.
    pub fn opposite(self, wall_pos: WallPos) -> (r: Option<Wall>)
        requires
            self.has_wall(wall_pos.1),
        ensures
            r == (match self.opposite_index_spec(wall_pos.1.index as int) {
                Some(j) => Some(self.wall_spec(j)),
                None => None,
            }),
    {
        match self {
            Shape::Tri => None,
            Shape::Quad => quad::opposite(wall_pos),
            Shape::Hex => hex::opposite(wall_pos),
        }
    }

    /// Returns the walls of the room at `pos`, going clockwise.
    pub fn walls(self, pos: matrix::Pos) -> (r: Vec<Wall>)
        requires
            pos.in_range(),
        ensures
            r@ == self.walls_spec(pos),
    {
        match self {
            Shape::Tri => tri::walls(pos),
            Shape::Quad => quad::walls(pos),
            Shape::Hex => hex::walls(pos),
        }
    }

    /// Converts a matrix position to the physical centre of its room.
    pub fn cell_to_physical(self, pos: matrix::Pos) -> (r: physical::Pos)
        requires
            pos.in_range(),
        ensures
            r == self.center_spec(pos),
    {
        match self {
            Shape::Tri => tri::center(pos),
            Shape::Quad => quad::center(pos),
            Shape::Hex => hex::center(pos),
        }
    }

    /// Converts a physical position to the matrix position of the room that
    /// holds it.
    pub fn physical_to_cell(self, pos: physical::Pos) -> (r: matrix::Pos)
        requires
            pos.in_range(),
        ensures
            r == self.room_at_spec(pos),
            r.in_range(),
    {
        match self {
            Shape::Tri => tri::room_at(pos),
            Shape::Quad => quad::room_at(pos),
            Shape::Hex => hex::room_at(pos),
        }
    }

    /// Returns the room that holds `p` and the wall of that room whose span
    /// holds the direction from the room's centre to `p`.
    pub fn wall_pos_at(self, p: physical::Pos) -> (r: WallPos)
        requires
            p.in_range(),
        ensures
            r.0 == self.room_at_spec(p),
            self.walls_spec(r.0).contains(r.1),
            r.1.in_span_spec(self.direction_spec(p).0, self.direction_spec(p).1),
    {
        let pos = self.physical_to_cell(p);
        let c = self.cell_to_physical(pos);
        let (dx, dy) = if p.x == c.x && p.y == c.y {
            (1i64, 0i64)
        } else {
            (p.x - c.x, p.y - c.y)
        };
        let walls = self.walls(pos);
        proof {
            lemma_spans_cover(self, pos, dx as int, dy as int);
            lemma_walls_of_room(self, pos);
        }
        let mut k: usize = 0;
        while k < walls.len()
            invariant
                walls@ == self.walls_spec(pos),
                pos == self.room_at_spec(p),
                (dx as int, dy as int) == self.direction_spec(p),
                forall|j: int| 0 <= j < k ==> !(#[trigger] walls@[j]).in_span_spec(dx as int, dy as int),
                -0x1_0000_0000 < dx < 0x1_0000_0000,
                -0x1_0000_0000 < dy < 0x1_0000_0000,
                forall|j: int| 0 <= j < walls@.len() ==> self.has_wall(#[trigger] walls@[j]),
                exists|j: int| 0 <= j < walls@.len() && (#[trigger] walls@[j]).in_span_spec(dx as int, dy as int),
            decreases walls.len() - k,
        {
            proof {
                lemma_wall_facts(self, walls@[k as int].index as int);
            }
            if walls[k].in_span(dx, dy) {
                return (pos, walls[k]);
            }
            k += 1;
        }
        proof {
            assert(false);
        }
        (pos, walls[0])
    }
}

impl Shape {
    /// Calculates the view box of a maze of this shape: the smallest
    /// rectangle that holds the corners of the rooms in its first and last
    /// columns. A maze without rooms gets an empty box at the origin.
    pub fn viewbox(self, cols: usize, rows: usize) -> (r: ViewBox)
        requires
            cols <= matrix::MAX_SIDE,
            rows <= matrix::MAX_SIDE,
        ensures
            cols == 0 || rows == 0 ==> r == (ViewBox {
                corner: physical::Pos { x: 0, y: 0 },
                width: 0,
                height: 0,
            }),
            cols > 0 && rows > 0 ==> {
                &&& forall|x: int, y: int|
                    is_edge_corner(self, cols as int, rows as int, x, y) ==> r.holds(x, y)
                &&& exists|y: int|
                    #[trigger] is_edge_corner(self, cols as int, rows as int, r.corner.x as int, y)
                &&& exists|y: int|
                    #[trigger] is_edge_corner(self, cols as int, rows as int, r.corner.x + r.width, y)
                &&& exists|x: int|
                    #[trigger] is_edge_corner(self, cols as int, rows as int, x, r.corner.y as int)
                &&& exists|x: int|
                    #[trigger] is_edge_corner(self, cols as int, rows as int, x, r.corner.y + r.height)
            },
            r.corner.in_range(),
            0 <= r.width < physical::PHYS_LIMIT,
            0 <= r.height < physical::PHYS_LIMIT,
            -0x400_0000 <= r.corner.x <= 0x400_0000,
            -0x400_0000 <= r.corner.y <= 0x400_0000,
            r.corner.x + r.width <= 0x400_0000,
            r.corner.y + r.height <= 0x400_0000,
    {
        if cols == 0 || rows == 0 {
            return ViewBox { corner: physical::Pos { x: 0, y: 0 }, width: 0, height: 0 };
        }
        let n = self.wall_count();
        let first = self.cell_to_physical(matrix::Pos { col: 0, row: 0 });
        let ghost c0 = self.center_spec(matrix::Pos { col: 0, row: 0 });
        let w0 = self.walls(matrix::Pos { col: 0, row: 0 });
        proof {
            lemma_walls_of_room(self, matrix::Pos { col: 0, row: 0 });
            lemma_wall_facts(self, w0@[0].index as int);
            assert(edge_corner(self, cols as int, 0, false, 0) == (
                first.x + w0@[0].span.0.dx,
                first.y + w0@[0].span.0.dy,
            ));
        }
        let mut left = first.x + w0[0].span.0.dx;
        let mut right = left;
        let mut top = first.y + w0[0].span.0.dy;
        let mut bottom = top;
        let ghost mut wl: (int, bool, int) = (0, false, 0);
        let ghost mut wr: (int, bool, int) = (0, false, 0);
        let ghost mut wt: (int, bool, int) = (0, false, 0);
        let ghost mut wb: (int, bool, int) = (0, false, 0);
        let mut row: usize = 0;
        while row < rows
            invariant
                0 < cols <= matrix::MAX_SIDE,
                0 < rows <= matrix::MAX_SIDE,
                row <= rows,
                n == self.wall_count_spec(),
                left <= right,
                top <= bottom,
                -0x400_0000 <= left,
                right <= 0x400_0000,
                -0x400_0000 <= top,
                bottom <= 0x400_0000,
                forall|r: int, last: bool, k: int|
                    0 <= r < row && 0 <= k < n ==> {
                        let (x, y) = #[trigger] edge_corner(self, cols as int, r, last, k);
                        left <= x <= right && top <= y <= bottom
                    },
                0 <= wl.0 < rows && 0 <= wl.2 < n && edge_corner(self, cols as int, wl.0, wl.1, wl.2).0 == left,
                0 <= wr.0 < rows && 0 <= wr.2 < n && edge_corner(self, cols as int, wr.0, wr.1, wr.2).0 == right,
                0 <= wt.0 < rows && 0 <= wt.2 < n && edge_corner(self, cols as int, wt.0, wt.1, wt.2).1 == top,
                0 <= wb.0 < rows && 0 <= wb.2 < n && edge_corner(self, cols as int, wb.0, wb.1, wb.2).1 == bottom,
            decreases rows - row,
        {
            let mut side: usize = 0;
            while side < 2
                invariant
                    0 < cols <= matrix::MAX_SIDE,
                    0 < rows <= matrix::MAX_SIDE,
                    row < rows,
                    side <= 2,
                    n == self.wall_count_spec(),
                    left <= right,
                    top <= bottom,
                    -0x400_0000 <= left,
                    right <= 0x400_0000,
                    -0x400_0000 <= top,
                    bottom <= 0x400_0000,
                    forall|r: int, last: bool, k: int|
                        (0 <= r < row || (r == row && (side == 2 || (side == 1 && !last)))) && 0 <= k < n ==> {
                            let (x, y) = #[trigger] edge_corner(self, cols as int, r, last, k);
                            left <= x <= right && top <= y <= bottom
                        },
                    0 <= wl.0 < rows && 0 <= wl.2 < n && edge_corner(self, cols as int, wl.0, wl.1, wl.2).0 == left,
                    0 <= wr.0 < rows && 0 <= wr.2 < n && edge_corner(self, cols as int, wr.0, wr.1, wr.2).0 == right,
                    0 <= wt.0 < rows && 0 <= wt.2 < n && edge_corner(self, cols as int, wt.0, wt.1, wt.2).1 == top,
                    0 <= wb.0 < rows && 0 <= wb.2 < n && edge_corner(self, cols as int, wb.0, wb.1, wb.2).1 == bottom,
                decreases 2 - side,
            {
                let last = side == 1;
                let pos = matrix::Pos {
                    col: if last { cols as isize - 1 } else { 0 },
                    row: row as isize,
                };
                let center = self.cell_to_physical(pos);
                let walls = self.walls(pos);
                proof {
                    lemma_walls_of_room(self, pos);
                }
                let mut k: usize = 0;
                while k < walls.len()
                    invariant
                        0 < cols <= matrix::MAX_SIDE,
                        0 < rows <= matrix::MAX_SIDE,
                        row < rows,
                        side < 2,
                        last == (side == 1),
                        pos == (matrix::Pos { col: (if last { cols - 1 } else { 0 }) as isize, row: row as isize }),
                        center == self.center_spec(pos),
                        walls@ == self.walls_spec(pos),
                        walls@.len() == n,
                        forall|j: int| 0 <= j < walls@.len() ==> self.has_wall(#[trigger] walls@[j]),
                        k <= walls.len(),
                        n == self.wall_count_spec(),
                        left <= right,
                        top <= bottom,
                        -0x400_0000 <= left,
                        right <= 0x400_0000,
                        -0x400_0000 <= top,
                        bottom <= 0x400_0000,
                        forall|r: int, l: bool, j: int|
                            ((0 <= r < row || (r == row && (side == 1 && !l))) && 0 <= j < n) || (r == row && l == last && 0 <= j < k) ==> {
                                let (x, y) = #[trigger] edge_corner(self, cols as int, r, l, j);
                                left <= x <= right && top <= y <= bottom
                            },
                        0 <= wl.0 < rows && 0 <= wl.2 < n && edge_corner(self, cols as int, wl.0, wl.1, wl.2).0 == left,
                        0 <= wr.0 < rows && 0 <= wr.2 < n && edge_corner(self, cols as int, wr.0, wr.1, wr.2).0 == right,
                        0 <= wt.0 < rows && 0 <= wt.2 < n && edge_corner(self, cols as int, wt.0, wt.1, wt.2).1 == top,
                        0 <= wb.0 < rows && 0 <= wb.2 < n && edge_corner(self, cols as int, wb.0, wb.1, wb.2).1 == bottom,
                    decreases walls.len() - k,
                {
                    proof {
                        lemma_wall_facts(self, walls@[k as int].index as int);
                    }
                    let x = center.x + walls[k].span.0.dx;
                    let y = center.y + walls[k].span.0.dy;
                    proof {
                        assert(edge_corner(self, cols as int, row as int, last, k as int) == (x as int, y as int));
                    }
                    if x < left {
                        left = x;
                        proof { wl = (row as int, last, k as int); }
                    }
                    if x > right {
                        right = x;
                        proof { wr = (row as int, last, k as int); }
                    }
                    if y < top {
                        top = y;
                        proof { wt = (row as int, last, k as int); }
                    }
                    if y > bottom {
                        bottom = y;
                        proof { wb = (row as int, last, k as int); }
                    }
                    k += 1;
                }
                side += 1;
            }
            row += 1;
        }
        let r = ViewBox {
            corner: physical::Pos { x: left, y: top },
            width: right - left,
            height: bottom - top,
        };
        proof {
            assert forall|x: int, y: int| is_edge_corner(self, cols as int, rows as int, x, y) implies r.holds(x, y) by {
                let (rr, l, k) = choose|rr: int, l: bool, k: int|
                    0 <= rr < rows && 0 <= k < self.wall_count_spec() && #[trigger] edge_corner(self, cols as int, rr, l, k) == (x, y);
                assert(edge_corner(self, cols as int, rr, l, k) == (x, y));
            }
            assert(is_edge_corner(self, cols as int, rows as int, r.corner.x as int, edge_corner(self, cols as int, wl.0, wl.1, wl.2).1));
            assert(is_edge_corner(self, cols as int, rows as int, r.corner.x + r.width, edge_corner(self, cols as int, wr.0, wr.1, wr.2).1));
            assert(is_edge_corner(self, cols as int, rows as int, edge_corner(self, cols as int, wt.0, wt.1, wt.2).0, r.corner.y as int));
            assert(is_edge_corner(self, cols as int, rows as int, edge_corner(self, cols as int, wb.0, wb.1, wb.2).0, r.corner.y + r.height));
        }
        r
    }
}

/// The Chebyshev distance between two positions: the larger of their
/// column and row differences.
pub open spec fn ring_distance(a: matrix::Pos, b: matrix::Pos) -> int {
    let dc = if a.col >= b.col { a.col - b.col } else { b.col - a.col };
    let dr = if a.row >= b.row { a.row - b.row } else { b.row - a.row };
    if dc >= dr { dc } else { dr }
}

/// Returns every position whose horizontal or vertical distance from `pos`
/// is `distance` and neither is larger: the ring of that radius around
/// `pos`, each position once.
pub fn surround(pos: matrix::Pos, distance: usize) -> (r: Vec<matrix::Pos>)
    requires
        pos.in_range(),
        distance < matrix::COORD_LIMIT,
    ensures
        r@.no_duplicates(),
        forall|q: matrix::Pos| r@.contains(q) <==> ring_distance(q, pos) == distance,
{
    let d = distance as isize;
    let mut r: Vec<matrix::Pos> = Vec::new();
    // The top edge, then the bottom edge unless it is the same row
    let mut col = pos.col - d;
    while col <= pos.col + d
        invariant
            pos.in_range(),
            0 <= d < matrix::COORD_LIMIT,
            pos.col - d <= col <= pos.col + d + 1,
            r@.no_duplicates(),
            forall|q: matrix::Pos| r@.contains(q) <==> (q.row == pos.row - d && pos.col - d <= q.col < col),
        decreases pos.col + d + 1 - col,
    {
        let q = matrix::Pos { col, row: pos.row - d };
        proof {
            lemma_push_fresh(r@, q);
        }
        r.push(q);
        col += 1;
    }
    if d != 0 {
        col = pos.col - d;
        while col <= pos.col + d
            invariant
                pos.in_range(),
                0 < d < matrix::COORD_LIMIT,
                pos.col - d <= col <= pos.col + d + 1,
                r@.no_duplicates(),
                forall|q: matrix::Pos| r@.contains(q) <==> ((q.row == pos.row - d && pos.col - d <= q.col <= pos.col + d) || (q.row == pos.row + d && pos.col - d <= q.col < col)),
            decreases pos.col + d + 1 - col,
        {
            let q = matrix::Pos { col, row: pos.row + d };
            proof {
                lemma_push_fresh(r@, q);
            }
            r.push(q);
            col += 1;
        }
    }
    // The left and right edges, without the corners
    let mut row = pos.row - d + 1;
    while row < pos.row + d
        invariant
            pos.in_range(),
            0 <= d < matrix::COORD_LIMIT,
            pos.row - d + 1 <= row,
            d > 0 ==> row <= pos.row + d,
            d == 0 ==> row == pos.row + 1,
            r@.no_duplicates(),
            forall|q: matrix::Pos| r@.contains(q) <==> (((q.row == pos.row - d || q.row == pos.row + d) && pos.col - d <= q.col <= pos.col + d) || (q.col == pos.col - d && pos.row - d < q.row < row)),
        decreases pos.row + d - row,
    {
        let q = matrix::Pos { col: pos.col - d, row };
        proof {
            lemma_push_fresh(r@, q);
        }
        r.push(q);
        row += 1;
    }
    assert(forall|q: matrix::Pos| r@.contains(q) <==> (((q.row == pos.row - d || q.row == pos.row + d) && pos.col - d <= q.col <= pos.col + d) || (q.col == pos.col - d && pos.row - d < q.row < pos.row + d)));
    row = pos.row - d + 1;
    while row < pos.row + d
        invariant
            pos.in_range(),
            0 <= d < matrix::COORD_LIMIT,
            pos.row - d + 1 <= row,
            d > 0 ==> row <= pos.row + d,
            d == 0 ==> row == pos.row + 1,
            r@.no_duplicates(),
            forall|q: matrix::Pos| r@.contains(q) <==> (((q.row == pos.row - d || q.row == pos.row + d) && pos.col - d <= q.col <= pos.col + d) || (q.col == pos.col - d && pos.row - d < q.row < pos.row + d) || (q.col == pos.col + d && pos.row - d < q.row < row)),
        decreases pos.row + d - row,
    {
        let q = matrix::Pos { col: pos.col + d, row };
        proof {
            lemma_push_fresh(r@, q);
        }
        r.push(q);
        row += 1;
    }
    assert forall|q: matrix::Pos| r@.contains(q) <==> ring_distance(q, pos) == distance by {
        assert(r@.contains(q) <==> (((q.row == pos.row - d || q.row == pos.row + d) && pos.col - d <= q.col <= pos.col + d) || ((q.col == pos.col - d || q.col == pos.col + d) && pos.row - d < q.row < pos.row + d)));
    }
    r
}

/// Pushing an element that a sequence does not hold keeps it free of
/// duplicates and adds exactly that element.
pub proof fn lemma_push_fresh<A>(s: Seq<A>, x: A)
    ensures
        forall|y: A| #[trigger] s.push(x).contains(y) <==> (s.contains(y) || y == x),
        s.no_duplicates() && !s.contains(x) ==> s.push(x).no_duplicates(),
{
    assert(s.push(x)[s.len() as int] == x);
    assert forall|y: A| #[trigger] s.push(x).contains(y) <==> (s.contains(y) || y == x) by {
        if s.contains(y) {
            let j = choose|j: int| 0 <= j < s.len() && s[j] == y;
            assert(s.push(x)[j] == y);
        }
        if s.push(x).contains(y) {
            let j = choose|j: int| 0 <= j < s.len() + 1 && s.push(x)[j] == y;
            if j < s.len() {
                assert(s[j] == y);
            }
        }
    }
    if s.no_duplicates() && !s.contains(x) {
        assert forall|i: int, j: int| 0 <= i < s.len() + 1 && 0 <= j < s.len() + 1 && i != j implies s.push(x)[i] != s.push(x)[j] by {
            if i < s.len() && j < s.len() {
            } else if i < s.len() {
                assert(s.contains(s[i]));
            } else if j < s.len() {
                assert(s.contains(s[j]));
            }
        }
    }
}

impl Shape {
    /// The offsets to the other walls that share the first corner of the
    /// wall with index `i`.
    pub open spec fn corner_offsets_spec(self, i: int) -> Seq<Offset> {
        match self {
            Shape::Tri => tri::corner_offsets_spec(i),
            Shape::Quad => quad::corner_offsets_spec(i),
            Shape::Hex => hex::corner_offsets_spec(i),
        }
    }

    /// The walls that share the first corner of `wall_pos`: the wall itself,
    /// then the others going round the corner.
    pub open spec fn corner_walls_spec(self, wall_pos: WallPos) -> Seq<WallPos> {
        seq![wall_pos] + self.corner_offsets_spec(wall_pos.1.index as int).map_values(
            |o: Offset|
                (
                    wall_pos.0.offset(o.dx as int, o.dy as int),
                    self.wall_spec(o.wall as int),
                ),
        )
    }

    /// Returns the offsets to the other walls that share the first corner of
    /// the wall with index `i`.
    pub fn corner_offsets(self, i: usize) -> (r: Vec<Offset>)
        requires
            i < self.table_len(),
        ensures
            r@ == self.corner_offsets_spec(i as int),
    {
        match self {
            Shape::Tri => tri::corner_offsets(i),
            Shape::Quad => quad::corner_offsets(i),
            Shape::Hex => hex::corner_offsets(i),
        }
    }
}

/// Whether the first or the last corner of `wall`, in a room centred at `c`,
/// is the physical position `(x, y)`.
pub open spec fn ends_at(c: physical::Pos, wall: Wall, x: int, y: int) -> bool {
    (c.x + wall.span.0.dx == x && c.y + wall.span.0.dy == y) || (c.x + wall.span.1.dx == x && c.y
        + wall.span.1.dy == y)
}

/// The walls that share the first corner of a wall of a room are walls of
/// their rooms, and each ends at that corner.
pub proof fn lemma_corner_walls(shape: Shape, pos: matrix::Pos, wall: Wall, k: int)
    requires
        pos.in_range(),
        shape.walls_spec(pos).contains(wall),
        0 <= k < shape.corner_walls_spec((pos, wall)).len(),
    ensures
        ({
            let (q, w) = shape.corner_walls_spec((pos, wall))[k];
            &&& shape.walls_spec(q).contains(w)
            &&& ends_at(
                shape.center_spec(q),
                w,
                shape.center_spec(pos).x + wall.span.0.dx,
                shape.center_spec(pos).y + wall.span.0.dy,
            )
        }),
{
    lemma_walls_of_room(shape, pos);
    lemma_wall_facts(shape, wall.index as int);
    if k > 0 {
        let offsets = shape.corner_offsets_spec(wall.index as int);
        assert(shape.corner_walls_spec((pos, wall))[k] == (
            pos.offset(offsets[k - 1].dx as int, offsets[k - 1].dy as int),
            shape.wall_spec(offsets[k - 1].wall as int),
        ));
        match shape {
            Shape::Tri => tri::lemma_corner_offsets(pos, wall.index as int, k - 1),
            Shape::Quad => quad::lemma_corner_offsets(pos, wall.index as int, k - 1),
            Shape::Hex => hex::lemma_corner_offsets(pos, wall.index as int, k - 1),
        }
    }
}

/// Corner offsets move by at most two columns and one row, to an entry of
/// the table.
pub proof fn lemma_offsets_small(shape: Shape, i: int, k: int)
    requires
        0 <= i < shape.table_len(),
        0 <= k < shape.corner_offsets_spec(i).len(),
    ensures
        -2 <= shape.corner_offsets_spec(i)[k].dx <= 2,
        -1 <= shape.corner_offsets_spec(i)[k].dy <= 1,
        shape.corner_offsets_spec(i)[k].wall < shape.table_len(),
{
}

/// The facts about a table entry that arithmetic on walls relies on.
pub proof fn lemma_wall_facts(shape: Shape, i: int)
    requires
        0 <= i < shape.table_len(),
    ensures
        shape.wall_spec(i).index == i,
        shape.wall_spec(i).shape == shape,
        -1 <= shape.wall_spec(i).dir.0 <= 1,
        -1 <= shape.wall_spec(i).dir.1 <= 1,
        shape.wall_spec(i).dir != (0isize, 0isize),
        -40 <= shape.wall_spec(i).span.0.dx <= 40,
        -40 <= shape.wall_spec(i).span.0.dy <= 40,
        -40 <= shape.wall_spec(i).span.1.dx <= 40,
        -40 <= shape.wall_spec(i).span.1.dy <= 40,
        shape.wall_spec(i).span.0.dx % 20 == 0,
        shape.wall_spec(i).span.0.dy % 20 == 0,
        0 <= shape.wall_spec(i).next < shape.table_len(),
        0 <= shape.wall_spec(i).previous < shape.table_len(),
        0 <= shape.back_index_spec(i) < shape.table_len(),
{
}

/// Every wall listed for a room is an entry of its shape's table, and the
/// list has one wall per side.
pub proof fn lemma_walls_of_room(shape: Shape, pos: matrix::Pos)
    ensures
        shape.walls_spec(pos).len() == shape.wall_count_spec(),
        forall|k: int|
            0 <= k < shape.walls_spec(pos).len() ==> shape.has_wall(
                #[trigger] shape.walls_spec(pos)[k],
            ),
{
}

/// The spans of the walls of a room together hold every direction.
pub proof fn lemma_spans_cover(shape: Shape, pos: matrix::Pos, dx: int, dy: int)
    requires
        dx != 0 || dy != 0,
    ensures
        exists|k: int|
            0 <= k < shape.walls_spec(pos).len() && (
            #[trigger] shape.walls_spec(pos)[k]).in_span_spec(dx, dy),
{
    let ws = shape.walls_spec(pos);
    let k = choose_covering(ws, dx, dy);
    assert(ws[k].in_span_spec(dx, dy));
}

/// The first wall of a list of three, four or six whose span holds
/// `(dx, dy)`, given that the spans cover every direction.
proof fn choose_covering(ws: Seq<Wall>, dx: int, dy: int) -> (k: int)
    requires
        dx != 0 || dy != 0,
        ws == tri::walls_spec(matrix::Pos { col: 0, row: 0 }) || ws == tri::walls_spec(
            matrix::Pos { col: 1, row: 0 },
        ) || ws == quad::walls_spec(matrix::Pos { col: 0, row: 0 }) || ws == hex::walls_spec(
            matrix::Pos { col: 0, row: 0 },
        ) || ws == hex::walls_spec(matrix::Pos { col: 0, row: 1 }),
    ensures
        0 <= k < ws.len(),
        ws[k].in_span_spec(dx, dy),
{
    if ws[0].in_span_spec(dx, dy) {
        0
    } else if ws[1].in_span_spec(dx, dy) {
        1
    } else if ws.len() == 3 {
        2
    } else if ws[2].in_span_spec(dx, dy) {
        2
    } else if ws.len() == 4 {
        3
    } else if ws[3].in_span_spec(dx, dy) {
        3
    } else if ws[4].in_span_spec(dx, dy) {
        4
    } else {
        5
    }
}

/// The back of the back of a wall is the wall itself, for every shape.
pub proof fn lemma_back_back(shape: Shape, wall_pos: WallPos)
    requires
        wall_pos.0.in_range(),
        shape.has_wall(wall_pos.1),
    ensures
        shape.has_wall(shape.back_spec(wall_pos).1),
        shape.back_spec(shape.back_spec(wall_pos)) == wall_pos,
{
    lemma_wall_facts(shape, wall_pos.1.index as int);
    lemma_wall_facts(shape, shape.back_index_spec(wall_pos.1.index as int));
}

/// For quadrilateral and hexagonal rooms the opposite of the opposite of a
/// wall is the wall itself; triangular rooms have no opposite walls.
pub proof fn lemma_opposite_opposite(shape: Shape, wall: Wall)
    requires
        shape.has_wall(wall),
    ensures
        shape == Shape::Tri <==> shape.opposite_index_spec(wall.index as int).is_none(),
        shape != Shape::Tri ==> shape.has_wall(
            shape.wall_spec(shape.opposite_index_spec(wall.index as int).unwrap()),
        ),
        shape != Shape::Tri ==> shape.opposite_index_spec(
            shape.opposite_index_spec(wall.index as int).unwrap(),
        ) == Some(wall.index as int),
{
    if shape != Shape::Tri {
        lemma_wall_facts(shape, shape.opposite_index_spec(wall.index as int).unwrap());
    }
}

/// The room at a physical position is the one whose polygon holds it: that
/// room holds it, and no other room does.
pub proof fn lemma_room_at_polygon(shape: Shape, p: physical::Pos, q: matrix::Pos)
    requires
        p.in_range(),
        q.in_range(),
    ensures
        shape.holds_spec(shape.room_at_spec(p), p),
        shape.holds_spec(q, p) ==> q == shape.room_at_spec(p),
{
    match shape {
        Shape::Tri => {
            tri::lemma_room_at_holds(p);
            if tri::holds(q, p) {
                tri::lemma_holds_unique(q, tri::room_at_spec(p), p);
            }
        },
        Shape::Quad => {
            quad::lemma_room_at_holds(p);
            if quad::holds(q, p) {
                quad::lemma_holds_unique(q, quad::room_at_spec(p), p);
            }
        },
        Shape::Hex => {
            hex::lemma_room_at_holds(p);
            if hex::holds(q, p) {
                hex::lemma_holds_unique(q, hex::room_at_spec(p), p);
            }
        },
    }
}

/// A point just inside the span of a wall of a room, anywhere from the
/// room's centre to nineteen twentieths of the way to the wall's first
/// corner, lies in that room.
pub proof fn lemma_room_at_toward_corner(shape: Shape, pos: matrix::Pos, k: int, t: int)
    requires
        -0x10_0000 < pos.col < 0x10_0000,
        -0x10_0000 < pos.row < 0x10_0000,
        0 <= k < shape.walls_spec(pos).len(),
        0 <= t <= 19,
    ensures
        shape.room_at_spec(shape.toward_corner(pos, shape.walls_spec(pos)[k], t)) == pos,
{
    let p = shape.toward_corner(pos, shape.walls_spec(pos)[k], t);
    lemma_walls_of_room(shape, pos);
    lemma_wall_facts(shape, shape.walls_spec(pos)[k].index as int);
    assert(-40 * 19 <= (shape.walls_spec(pos)[k].span.0.dx / 20) * t <= 40 * 19) by (nonlinear_arith)
        requires
            -40 <= shape.walls_spec(pos)[k].span.0.dx <= 40,
            0 <= t <= 19,
    ;
    assert(-40 * 19 <= (shape.walls_spec(pos)[k].span.0.dy / 20) * t <= 40 * 19) by (nonlinear_arith)
        requires
            -40 <= shape.walls_spec(pos)[k].span.0.dy <= 40,
            0 <= t <= 19,
    ;
    assert(p.in_range());
    match shape {
        Shape::Tri => tri::lemma_toward_corner_holds(pos, k, t),
        Shape::Quad => quad::lemma_toward_corner_holds(pos, k, t),
        Shape::Hex => hex::lemma_toward_corner_holds(pos, k, t),
    }
    lemma_room_at_polygon(shape, p, pos);
}

/// The walls of a room lead to distinct neighbours.
pub proof fn lemma_directions_unique(shape: Shape, pos: matrix::Pos)
    ensures
        forall|k1: int, k2: int|
            0 <= k1 < shape.walls_spec(pos).len() && 0 <= k2 < shape.walls_spec(pos).len() && (
            #[trigger] shape.walls_spec(pos)[k1]).dir == (#[trigger] shape.walls_spec(
                pos,
            )[k2]).dir ==> k1 == k2,
{
}

/// The back of a wall of a room is a wall of the neighbouring room.
pub proof fn lemma_back_in_room(shape: Shape, wall_pos: WallPos)
    requires
        wall_pos.0.in_range(),
        shape.walls_spec(wall_pos.0).contains(wall_pos.1),
    ensures
        shape.walls_spec(shape.back_spec(wall_pos).0).contains(shape.back_spec(wall_pos).1),
{
    let ws = shape.walls_spec(wall_pos.0);
    let k = choose|k: int| 0 <= k < ws.len() && ws[k] == wall_pos.1;
    let b = shape.back_spec(wall_pos);
    let bs = shape.walls_spec(b.0);
    let j = back_slot(shape, wall_pos.0, k);
    assert(bs[j] == b.1);
}

/// Where the back of the `k`th wall of the room at `pos` stands among the
/// walls of the neighbouring room.
pub open spec fn back_slot(shape: Shape, pos: matrix::Pos, k: int) -> int {
    match shape {
        Shape::Quad => seq![2int, 3, 0, 1][k],
        Shape::Hex => seq![3int, 4, 5, 0, 1, 2][k],
        Shape::Tri => if tri::points_up(pos) {
            seq![2int, 0, 1][k]
        } else {
            seq![1int, 2, 0][k]
        },
    }
}

/// The next link of each wall of a room leads to the following wall of that
/// room, and the last wall's to the first: the links form one cycle over the
/// walls of the room.
pub proof fn lemma_next_in_room(shape: Shape, pos: matrix::Pos)
    ensures
        forall|k: int|
            0 <= k < shape.walls_spec(pos).len() ==> #[trigger] shape.wall_spec(
                shape.walls_spec(pos)[k].next as int,
            ) == shape.walls_spec(pos)[(k + 1) % (shape.walls_spec(pos).len() as int)],
{
    let n = shape.walls_spec(pos).len() as int;
    assert forall|k: int| 0 <= k < n implies #[trigger] shape.wall_spec(
        shape.walls_spec(pos)[k].next as int,
    ) == shape.walls_spec(pos)[(k + 1) % n] by {
        if k < n - 1 {
            vstd::arithmetic::div_mod::lemma_small_mod((k + 1) as nat, n as nat);
        } else {
            vstd::arithmetic::div_mod::lemma_mod_self_0(n);
        }
    }
}

} // verus!