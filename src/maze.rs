//! Mazes: a shape and a matrix of rooms whose walls can be opened and closed.

use vstd::prelude::*;

use crate::matrix::{self, Matrix, Pos, MAX_SIDE};
use crate::physical;
use crate::shape::{self, Shape, Wall, WallPos};

verus! {

/// Whether bit `i` of `mask` is set.
pub open spec fn mask_has(mask: u32, i: int) -> bool {
    0 <= i < 32 && (mask >> (i as u32)) & 1 == 1
}

/// Setting a bit sets that bit and keeps the others.
pub proof fn lemma_mask_set(mask: u32, i: u32, j: u32)
    requires
        i < 32,
        j < 32,
    ensures
        mask_has(mask | (1u32 << i), j as int) == (i == j || mask_has(mask, j as int)),
        mask_has(mask & !(1u32 << i), j as int) == (i != j && mask_has(mask, j as int)),
{
    assert(((mask | (1u32 << i)) >> j) & 1 == 1 <==> (i == j || (mask >> j) & 1 == 1))
        by (bit_vector)
        requires
            i < 32,
            j < 32,
    ;
    assert(((mask & !(1u32 << i)) >> j) & 1 == 1 <==> (i != j && (mask >> j) & 1 == 1))
        by (bit_vector)
        requires
            i < 32,
            j < 32,
    ;
}

/// An empty mask has no bit set.
pub proof fn lemma_mask_empty(j: u32)
    requires
        j < 32,
    ensures
        !mask_has(0, j as int),
{
    assert((0u32 >> j) & 1 == 0) by (bit_vector);
}

/// A room of a maze.
pub struct Room<T> {
    /// The bit mask of the open walls, by wall index.
    pub open_walls: u32,
    /// Whether the room has been visited.
    pub visited: bool,
    /// The data attached to the room.
    pub data: Option<T>,
}

impl<T> Room<T> {
    /// Whether the wall with index `i` is open.
    pub open spec fn is_open_spec(&self, i: int) -> bool {
        mask_has(self.open_walls, i)
    }

    /// Returns whether the wall with index `i` is open.
    pub fn is_open(&self, i: usize) -> (r: bool)
        requires
            i < 32,
        ensures
            r == self.is_open_spec(i as int),
    {
        (self.open_walls >> (i as u32)) & 1 == 1
    }

    /// Opens or closes the wall with index `i`.
    pub fn set_open(&mut self, i: usize, value: bool)
        requires
            i < 32,
        ensures
            final(self).visited == old(self).visited,
            final(self).data == old(self).data,
            forall|j: int|
                0 <= j < 32 ==> #[trigger] final(self).is_open_spec(j) == if j == i {
                    value
                } else {
                    old(self).is_open_spec(j)
                },
    {
        proof {
            assert forall|j: int| 0 <= j < 32 implies mask_has(self.open_walls | (1u32 << i as u32), j)
                == (i == j || mask_has(self.open_walls, j)) && mask_has(
                self.open_walls & !(1u32 << i as u32),
                j,
            ) == (i != j && mask_has(self.open_walls, j)) by {
                lemma_mask_set(self.open_walls, i as u32, j as u32);
            }
        }
        if value {
            self.open_walls = self.open_walls | (1u32 << i as u32);
        } else {
            self.open_walls = self.open_walls & !(1u32 << i as u32);
        }
    }
}

/// A maze: rooms of one shape laid out in a matrix.
pub struct Maze<T> {
    /// The shape of the rooms.
    pub shape: Shape,
    /// The rooms.
    pub rooms: Matrix<Room<T>>,
}

impl<T> Maze<T> {
    /// The room matrix is well formed.
    pub open spec fn wf(&self) -> bool {
        self.rooms.wf()
    }

    /// Whether the wall with index `i` of the room at `pos` is open; walls
    /// of rooms outside of the maze are closed.
    pub open spec fn open_spec(&self, pos: Pos, i: int) -> bool {
        self.rooms.inside(pos) && self.rooms.at(pos).is_open_spec(i)
    }

    /// Whether the wall at `wall_pos` is open.
    pub open spec fn is_open_spec(&self, wall_pos: WallPos) -> bool {
        self.open_spec(wall_pos.0, wall_pos.1.index as int)
    }

    /// Whether two rooms are the same or neighbours through an open wall.
    pub open spec fn connected_spec(&self, pos1: Pos, pos2: Pos) -> bool {
        pos1 == pos2 || exists|k: int|
            0 <= k < self.shape.walls_spec(pos1).len() && pos1.offset(
                (#[trigger] self.shape.walls_spec(pos1)[k]).dir.0 as int,
                self.shape.walls_spec(pos1)[k].dir.1 as int,
            ) == pos2 && self.open_spec(pos1, self.shape.walls_spec(pos1)[k].index as int)
    }

    /// Every wall between two rooms of the maze is open exactly when its back
    /// is.
    pub open spec fn consistent(&self) -> bool {
        forall|p: Pos, k: int|
            p.in_range() && 0 <= k < self.shape.walls_spec(p).len() && self.rooms.inside(p)
                && self.rooms.inside(self.shape.back_spec((p, self.shape.walls_spec(p)[k])).0)
                ==> #[trigger] self.open_spec(p, self.shape.walls_spec(p)[k].index as int)
                == self.is_open_spec(self.shape.back_spec((p, self.shape.walls_spec(p)[k])))
    }

    /// `self` is `before` with the wall at `wall_pos` and its back set to
    /// `value`, where those rooms are inside the maze, and nothing else
    /// changed.
    pub open spec fn is_set_open(&self, before: Maze<T>, wall_pos: WallPos, value: bool) -> bool {
        let back = before.shape.back_spec(wall_pos);
        &&& self.wf()
        &&& self.shape == before.shape
        &&& self.rooms.width == before.rooms.width
        &&& self.rooms.height == before.rooms.height
        &&& forall|p: Pos|
            #![trigger self.rooms.at(p)]
            self.rooms.inside(p) ==> self.rooms.at(p).data == before.rooms.at(p).data
                && self.rooms.at(p).visited == before.rooms.at(p).visited
        &&& forall|p: Pos, i: int|
            0 <= i < 32 ==> #[trigger] self.open_spec(p, i) == if (p == wall_pos.0 && i
                == wall_pos.1.index) || (p == back.0 && i == back.1.index) {
                self.rooms.inside(p) && value
            } else {
                before.open_spec(p, i)
            }
    }

    /// Creates a maze of closed, unvisited rooms without data.
    pub fn new(shape: Shape, width: usize, height: usize) -> (r: Maze<T>)
        requires
            width <= MAX_SIDE,
            height <= MAX_SIDE,
        ensures
            r.wf(),
            r.shape == shape,
            r.rooms.width == width,
            r.rooms.height == height,
            forall|p: Pos, i: int| !(#[trigger] r.open_spec(p, i)),
            forall|p: Pos|
                #![trigger r.rooms.at(p)]
                r.rooms.inside(p) ==> !r.rooms.at(p).visited && r.rooms.at(p).data.is_none(),
            r.consistent(),
    {
        proof {
            matrix::lemma_cells_fit(width as int, height as int);
        }
        let n = width * height;
        let mut data: Vec<Room<T>> = Vec::new();
        let mut k: usize = 0;
        while k < n
            invariant
                k <= n,
                data@.len() == k,
                forall|j: int|
                    0 <= j < k ==> (#[trigger] data@[j]).open_walls == 0 && !data@[j].visited
                        && data@[j].data.is_none(),
            decreases n - k,
        {
            data.push(Room { open_walls: 0, visited: false, data: None });
            k += 1;
        }
        let r = Maze { shape, rooms: Matrix { width, height, data } };
        proof {
            assert forall|p: Pos, i: int| !(#[trigger] r.open_spec(p, i)) by {
                if r.rooms.inside(p) && 0 <= i < 32 {
                    matrix::lemma_offset_in_bounds(
                        width as int,
                        height as int,
                        p.col as int,
                        p.row as int,
                    );
                    lemma_mask_empty(i as u32);
                }
            }
            assert forall|p: Pos| #![trigger r.rooms.at(p)] r.rooms.inside(p) implies !r.rooms.at(
                p,
            ).visited && r.rooms.at(p).data.is_none() by {
                matrix::lemma_offset_in_bounds(
                    width as int,
                    height as int,
                    p.col as int,
                    p.row as int,
                );
            }
        }
        r
    }

    /// Returns the width of the maze, in rooms.
    pub fn width(&self) -> (r: usize)
        ensures
            r == self.rooms.width,
    {
        self.rooms.width
    }

    /// Returns the height of the maze, in rooms.
    pub fn height(&self) -> (r: usize)
        ensures
            r == self.rooms.height,
    {
        self.rooms.height
    }

    /// Returns the shape of the rooms.
    pub fn shape(&self) -> (r: Shape)
        ensures
            r == self.shape,
    {
        self.shape
    }

    /// Returns whether `pos` is a room of this maze.
    pub fn is_inside(&self, pos: Pos) -> (r: bool)
        ensures
            r == self.rooms.inside(pos),
    {
        self.rooms.is_inside(pos)
    }

    /// Returns the data attached to the room at `pos`, if it is inside the
    /// maze and has data.
    pub fn data(&self, pos: Pos) -> (r: Option<&T>)
        requires
            self.wf(),
        ensures
            r == (if self.rooms.inside(pos) {
                match self.rooms.at(pos).data {
                    Some(d) => Some(&d),
                    None => None,
                }
            } else {
                None
            }),
    {
        match self.rooms.get(pos) {
            Some(room) => match &room.data {
                Some(d) => Some(d),
                None => None,
            },
            None => None,
        }
    }

    /// Returns whether a wall is open; walls of rooms outside of the maze are
    /// closed.
    pub fn is_open(&self, wall_pos: WallPos) -> (r: bool)
        requires
            self.wf(),
            wall_pos.1.index < 32,
        ensures
            r == self.is_open_spec(wall_pos),
    {
        match self.rooms.get(wall_pos.0) {
            Some(room) => room.is_open(wall_pos.1.index),
            None => false,
        }
    }

    /// Opens or closes the room at `pos`'s wall with index `i`, if the room is
    /// inside the maze.
    fn set_room_wall(&mut self, pos: Pos, i: usize, value: bool)
        requires
            old(self).wf(),
            i < 32,
        ensures
            final(self).wf(),
            final(self).shape == old(self).shape,
            final(self).rooms.width == old(self).rooms.width,
            final(self).rooms.height == old(self).rooms.height,
            forall|p: Pos|
                #![trigger final(self).rooms.at(p)]
                final(self).rooms.inside(p) ==> final(self).rooms.at(p).data == old(
                    self,
                ).rooms.at(p).data && final(self).rooms.at(p).visited == old(self).rooms.at(
                    p,
                ).visited,
            forall|p: Pos, j: int|
                0 <= j < 32 ==> #[trigger] final(self).open_spec(p, j) == if p == pos && j == i {
                    old(self).rooms.inside(p) && value
                } else {
                    old(self).open_spec(p, j)
                },
    {
        if self.rooms.is_inside(pos) {
            let k = self.rooms.index_of(pos);
            let ghost before = self.rooms.data@;
            let mut room = self.rooms.data.remove(k);
            room.set_open(i, value);
            self.rooms.data.insert(k, room);
            proof {
                assert(self.rooms.data@ =~= before.update(k as int, room));
                assert forall|p: Pos| self.rooms.inside(p) && p != pos implies self.rooms.offset_of(p)
                    != k by {
                    if self.rooms.offset_of(p) == k {
                        lemma_offset_injective(self.rooms.width as int, p, pos);
                    }
                }
                assert forall|p: Pos| self.rooms.inside(p) implies 0 <= self.rooms.offset_of(p)
                    < self.rooms.data@.len() by {
                    matrix::lemma_offset_in_bounds(
                        self.rooms.width as int,
                        self.rooms.height as int,
                        p.col as int,
                        p.row as int,
                    );
                }
                assert forall|p: Pos, j: int| 0 <= j < 32 implies #[trigger] self.open_spec(p, j)
                    == if p == pos && j == i {
                    old(self).rooms.inside(p) && value
                } else {
                    old(self).open_spec(p, j)
                } by {
                    if self.rooms.inside(p) {
                        matrix::lemma_offset_in_bounds(
                            self.rooms.width as int,
                            self.rooms.height as int,
                            p.col as int,
                            p.row as int,
                        );
                    }
                }
            }
        }
    }

    /// Opens or closes a wall, together with its back on the neighbouring
    /// room; a side whose room is outside of the maze is left alone.
    pub fn set_open(&mut self, wall_pos: WallPos, value: bool)
        requires
            old(self).wf(),
            wall_pos.0.in_range(),
            old(self).shape.has_wall(wall_pos.1),
        ensures
            final(self).is_set_open(*old(self), wall_pos, value),
    {
        proof {
            shape::lemma_wall_facts(self.shape, wall_pos.1.index as int);
        }
        // First modify the requested wall...
        self.set_room_wall(wall_pos.0, wall_pos.1.index, value);
        // ...and then sync the value on the back
        let other = self.shape.back(wall_pos);
        proof {
            shape::lemma_wall_facts(self.shape, other.1.index as int);
        }
        self.set_room_wall(other.0, other.1.index, value);
    }

    /// Opens a wall and its back.
    pub fn open(&mut self, wall_pos: WallPos)
        requires
            old(self).wf(),
            wall_pos.0.in_range(),
            old(self).shape.has_wall(wall_pos.1),
        ensures
            final(self).is_set_open(*old(self), wall_pos, true),
    {
        self.set_open(wall_pos, true);
    }

    /// Closes a wall and its back.
    pub fn close(&mut self, wall_pos: WallPos)
        requires
            old(self).wf(),
            wall_pos.0.in_range(),
            old(self).shape.has_wall(wall_pos.1),
        ensures
            final(self).is_set_open(*old(self), wall_pos, false),
    {
        self.set_open(wall_pos, false);
    }
}

impl<T> Maze<T> {
    /// Returns whether two rooms are connected: they are the same room, or
    /// neighbours with an open wall between them.
    pub fn connected(&self, pos1: Pos, pos2: Pos) -> (r: bool)
        requires
            self.wf(),
            pos1.in_range(),
        ensures
            r == self.connected_spec(pos1, pos2),
    {
        if pos1 == pos2 {
            return true;
        }
        let walls = self.shape.walls(pos1);
        proof {
            shape::lemma_walls_of_room(self.shape, pos1);
            shape::lemma_directions_unique(self.shape, pos1);
        }
        let mut k: usize = 0;
        while k < walls.len()
            invariant
                self.wf(),
                pos1.in_range(),
                pos1 != pos2,
                walls@ == self.shape.walls_spec(pos1),
                forall|j: int|
                    0 <= j < walls@.len() ==> self.shape.has_wall(#[trigger] walls@[j]),
                forall|j: int|
                    0 <= j < k ==> pos1.offset(
                        (#[trigger] walls@[j]).dir.0 as int,
                        walls@[j].dir.1 as int,
                    ) != pos2,
            decreases walls.len() - k,
        {
            let wall = walls[k];
            proof {
                shape::lemma_wall_facts(self.shape, wall.index as int);
            }
            if pos1.col + wall.dir.0 == pos2.col && pos1.row + wall.dir.1 == pos2.row {
                return self.is_open((pos1, wall));
            }
            k += 1;
        }
        false
    }

    /// Returns every wall of the shape's table.
    pub fn all_walls(&self) -> (r: Vec<Wall>)
        ensures
            r@.len() == self.shape.table_len(),
            forall|i: int| 0 <= i < r@.len() ==> #[trigger] r@[i] == self.shape.wall_spec(i),
    {
        let n: usize = match self.shape {
            Shape::Tri => shape::tri::WALL_COUNT,
            Shape::Quad => shape::quad::WALL_COUNT,
            Shape::Hex => shape::hex::WALL_COUNT,
        };
        let mut r: Vec<Wall> = Vec::new();
        let mut i: usize = 0;
        while i < n
            invariant
                n == self.shape.table_len(),
                i <= n,
                r@.len() == i,
                forall|j: int| 0 <= j < i ==> #[trigger] r@[j] == self.shape.wall_spec(j),
            decreases n - i,
        {
            r.push(self.shape.wall(i));
            i += 1;
        }
        r
    }

    /// Returns the back of a wall: the same wall seen from the neighbouring
    /// room.
    pub fn back(&self, wall_pos: WallPos) -> (r: WallPos)
        requires
            wall_pos.0.in_range(),
            self.shape.has_wall(wall_pos.1),
        ensures
            r == self.shape.back_spec(wall_pos),
            self.shape.has_wall(r.1),
    {
        self.shape.back(wall_pos)
    }

    /// Returns the wall on the opposite side of the room of `wall_pos`, or
    /// `None` for rooms with an odd number of walls.
    pub fn opposite(&self, wall_pos: WallPos) -> (r: Option<Wall>)
        requires
            self.shape.has_wall(wall_pos.1),
        ensures
            r == (match self.shape.opposite_index_spec(wall_pos.1.index as int) {
                Some(j) => Some(self.shape.wall_spec(j)),
                None => None,
            }),
    {
        self.shape.opposite(wall_pos)
    }

    /// Returns the walls of the room at `pos`, going clockwise.
    pub fn walls(&self, pos: Pos) -> (r: Vec<Wall>)
        requires
            pos.in_range(),
        ensures
            r@ == self.shape.walls_spec(pos),
    {
        self.shape.walls(pos)
    }

    /// Returns the physical centre of the room at `pos`.
    pub fn center(&self, pos: Pos) -> (r: physical::Pos)
        requires
            pos.in_range(),
        ensures
            r == self.shape.center_spec(pos),
    {
        self.shape.cell_to_physical(pos)
    }

    /// Returns the position of the room that holds a physical position; it
    /// may lie outside of the maze.
    pub fn room_at(&self, pos: physical::Pos) -> (r: Pos)
        requires
            pos.in_range(),
        ensures
            r == self.shape.room_at_spec(pos),
            r.in_range(),
    {
        self.shape.physical_to_cell(pos)
    }

    /// Returns the room that holds a physical position, with the wall of that
    /// room in whose direction the position lies.
    pub fn wall_pos_at(&self, pos: physical::Pos) -> (r: WallPos)
        requires
            pos.in_range(),
        ensures
            r.0 == self.shape.room_at_spec(pos),
            self.shape.walls_spec(r.0).contains(r.1),
            r.1.in_span_spec(self.shape.direction_spec(pos).0, self.shape.direction_spec(pos).1),
    {
        self.shape.wall_pos_at(pos)
    }
}

/// The kinds of mazes, identified by the number of walls of each room.
#[derive(Clone, Copy, Debug, PartialEq, Eq, Hash, Structural)]
pub enum MazeType {
    /// A maze with triangular rooms.
    Tri,
    /// A maze with quadratic rooms.
    Quad,
    /// A maze with hexagonal rooms.
    Hex,
}

impl MazeType {
    /// The shape of the rooms of this kind of maze.
    pub open spec fn shape_spec(self) -> Shape {
        match self {
            MazeType::Tri => Shape::Tri,
            MazeType::Quad => Shape::Quad,
            MazeType::Hex => Shape::Hex,
        }
    }

    /// Returns the shape of the rooms of this kind of maze.
    pub fn shape(self) -> (r: Shape)
        ensures
            r == self.shape_spec(),
    {
        match self {
            MazeType::Tri => Shape::Tri,
            MazeType::Quad => Shape::Quad,
            MazeType::Hex => Shape::Hex,
        }
    }

    /// Converts a number of walls per room to a kind of maze.
    pub fn from_num(num: u32) -> (r: Option<MazeType>)
        ensures
            r == (if num == 3 {
                Some(MazeType::Tri)
            } else if num == 4 {
                Some(MazeType::Quad)
            } else if num == 6 {
                Some(MazeType::Hex)
            } else {
                None
            }),
    {
        match num {
            3 => Some(MazeType::Tri),
            4 => Some(MazeType::Quad),
            6 => Some(MazeType::Hex),
            _ => None,
        }
    }

    /// Creates a maze of this kind with closed rooms.
    pub fn create<T>(self, width: usize, height: usize) -> (r: Maze<T>)
        requires
            width <= MAX_SIDE,
            height <= MAX_SIDE,
        ensures
            r.wf(),
            r.shape == self.shape_spec(),
            r.rooms.width == width,
            r.rooms.height == height,
            forall|p: Pos, i: int| !(#[trigger] r.open_spec(p, i)),
            forall|p: Pos|
                #![trigger r.rooms.at(p)]
                r.rooms.inside(p) ==> !r.rooms.at(p).visited && r.rooms.at(p).data.is_none(),
            r.consistent(),
    {
        Maze::new(self.shape(), width, height)
    }
}

impl Shape {
    /// Returns the shape whose rooms have `num` walls, if there is one.
    pub fn from_num(num: u32) -> (r: Option<Shape>)
        ensures
            r == (if num == 3 {
                Some(Shape::Tri)
            } else if num == 4 {
                Some(Shape::Quad)
            } else if num == 6 {
                Some(Shape::Hex)
            } else {
                None
            }),
    {
        match num {
            3 => Some(Shape::Tri),
            4 => Some(Shape::Quad),
            6 => Some(Shape::Hex),
            _ => None,
        }
    }

    /// Converts a number of walls to a shape; any other number is handed
    /// back as the error.
    pub fn try_from_walls(num: u32) -> (r: Result<Shape, u32>)
        ensures
            r == (match Shape::from_num_spec(num) {
                Some(s) => Ok(s),
                None => Err(num),
            }),
    {
        match Shape::from_num(num) {
            Some(s) => Ok(s),
            None => Err(num),
        }
    }

    /// The shape whose rooms have `num` walls, if there is one.
    pub open spec fn from_num_spec(num: u32) -> Option<Shape> {
        if num == 3 {
            Some(Shape::Tri)
        } else if num == 4 {
            Some(Shape::Quad)
        } else if num == 6 {
            Some(Shape::Hex)
        } else {
            None
        }
    }

    /// The name of the shape.
    pub open spec fn name_spec(self) -> Seq<char> {
        match self {
            Shape::Tri => "tri"@,
            Shape::Quad => "quad"@,
            Shape::Hex => "hex"@,
        }
    }

    /// Converts a lower-case name, `tri`, `quad` or `hex`, to a shape; any
    /// other string is handed back as the error.
    pub fn from_name(source: &str) -> (r: Result<Shape, String>)
        ensures
            source@ == Shape::Tri.name_spec() ==> r == Ok::<Shape, String>(Shape::Tri),
            source@ == Shape::Quad.name_spec() ==> r == Ok::<Shape, String>(Shape::Quad),
            source@ == Shape::Hex.name_spec() ==> r == Ok::<Shape, String>(Shape::Hex),
            r.is_err() <==> (source@ != Shape::Tri.name_spec() && source@ != Shape::Quad.name_spec()
                && source@ != Shape::Hex.name_spec()),
            r.is_err() ==> r.unwrap_err()@ == source@,
    {
        proof {
            reveal_strlit("tri");
            reveal_strlit("quad");
            reveal_strlit("hex");
            assert("tri"@.len() == 3 && "quad"@.len() == 4 && "hex"@.len() == 3);
            assert("tri"@[0] != "hex"@[0]);
        }
        if crate::initialize::str_eq(source, "tri") {
            Ok(Shape::Tri)
        } else if crate::initialize::str_eq(source, "quad") {
            Ok(Shape::Quad)
        } else if crate::initialize::str_eq(source, "hex") {
            Ok(Shape::Hex)
        } else {
            Err(source.to_owned())
        }
    }

    /// Creates a maze of this shape with closed rooms.
    pub fn create<T>(self, width: usize, height: usize) -> (r: Maze<T>)
        requires
            width <= MAX_SIDE,
            height <= MAX_SIDE,
        ensures
            r.wf(),
            r.shape == self,
            r.rooms.width == width,
            r.rooms.height == height,
            forall|p: Pos, i: int| !(#[trigger] r.open_spec(p, i)),
            forall|p: Pos|
                #![trigger r.rooms.at(p)]
                r.rooms.inside(p) ==> !r.rooms.at(p).visited && r.rooms.at(p).data.is_none(),
            r.consistent(),
    {
        Maze::new(self, width, height)
    }

    /// Creates a maze of this shape with closed rooms, each holding the value
    /// of the matching cell of `source`; the maze takes its dimensions from
    /// `source`.
    pub fn create_populated<T: Copy>(self, source: &Matrix<T>) -> (r: Maze<T>)
        requires
            source.wf(),
        ensures
            r.wf(),
            r.shape == self,
            r.rooms.width == source.width,
            r.rooms.height == source.height,
            forall|p: Pos, i: int| !(#[trigger] r.open_spec(p, i)),
            forall|p: Pos|
                #![trigger r.rooms.at(p)]
                r.rooms.inside(p) ==> r.rooms.at(p).data == Some(source.at(p)),
    {
        let n = source.data.len();
        let mut data: Vec<Room<T>> = Vec::new();
        let mut k: usize = 0;
        while k < n
            invariant
                n == source.data@.len(),
                k <= n,
                data@.len() == k,
                forall|j: int|
                    0 <= j < k ==> (#[trigger] data@[j]).open_walls == 0 && !data@[j].visited
                        && data@[j].data == Some(source.data@[j]),
            decreases n - k,
        {
            data.push(Room { open_walls: 0, visited: false, data: Some(source.data[k]) });
            k += 1;
        }
        let r = Maze { shape: self, rooms: Matrix { width: source.width, height: source.height, data } };
        proof {
            assert forall|p: Pos, i: int| !(#[trigger] r.open_spec(p, i)) by {
                if r.rooms.inside(p) && 0 <= i < 32 {
                    matrix::lemma_offset_in_bounds(r.rooms.width as int, r.rooms.height as int, p.col as int, p.row as int);
                    lemma_mask_empty(i as u32);
                }
            }
            assert forall|p: Pos| #![trigger r.rooms.at(p)] r.rooms.inside(p) implies r.rooms.at(p).data == Some(source.at(p)) by {
                matrix::lemma_offset_in_bounds(r.rooms.width as int, r.rooms.height as int, p.col as int, p.row as int);
            }
        }
        r
    }
}

impl std::str::FromStr for Shape {
    type Err = String;

    fn from_str(source: &str) -> Result<Shape, String> {
        Shape::from_name(source)
    }
}

/// Opening a wall connects the rooms on its two sides, both ways; closing it
/// disconnects them.
pub proof fn lemma_set_open_connects<T>(
    before: Maze<T>,
    after: Maze<T>,
    wall_pos: WallPos,
    value: bool,
)
    requires
        before.wf(),
        wall_pos.0.in_range(),
        before.shape.walls_spec(wall_pos.0).contains(wall_pos.1),
        before.rooms.inside(wall_pos.0),
        before.rooms.inside(before.shape.back_spec(wall_pos).0),
        after.is_set_open(before, wall_pos, value),
    ensures
        after.connected_spec(wall_pos.0, before.shape.back_spec(wall_pos).0) == value,
        after.connected_spec(before.shape.back_spec(wall_pos).0, wall_pos.0) == value,
{
    let shape = before.shape;
    let a = wall_pos.0;
    let back = shape.back_spec(wall_pos);
    let b = back.0;
    shape::lemma_walls_of_room(shape, a);
    shape::lemma_directions_unique(shape, a);
    shape::lemma_directions_unique(shape, b);
    shape::lemma_back_in_room(shape, wall_pos);
    shape::lemma_back_back(shape, wall_pos);
    shape::lemma_wall_facts(shape, wall_pos.1.index as int);
    shape::lemma_wall_facts(shape, back.1.index as int);
    let ka = choose|k: int| 0 <= k < shape.walls_spec(a).len() && shape.walls_spec(a)[k] == wall_pos.1;
    let kb = choose|k: int| 0 <= k < shape.walls_spec(b).len() && shape.walls_spec(b)[k] == back.1;
    assert(after.open_spec(a, wall_pos.1.index as int) == value);
    assert(after.open_spec(b, back.1.index as int) == value);
    if value {
        assert(pos_through(shape, a, ka) == b);
        assert(pos_through(shape, b, kb) == a);
    } else {
        assert forall|k: int| 0 <= k < shape.walls_spec(a).len() && pos_through(shape, a, k) == b
            implies !after.open_spec(a, (#[trigger] shape.walls_spec(a)[k]).index as int) by {
            assert(shape.walls_spec(a)[k].dir == shape.walls_spec(a)[ka].dir);
        }
        assert forall|k: int| 0 <= k < shape.walls_spec(b).len() && pos_through(shape, b, k) == a
            implies !after.open_spec(b, (#[trigger] shape.walls_spec(b)[k]).index as int) by {
            assert(shape.walls_spec(b)[k].dir == shape.walls_spec(b)[kb].dir);
        }
    }
}

/// Opening or closing a wall of a room together with its back keeps a maze
/// consistent.
pub proof fn lemma_set_open_consistent<T>(before: Maze<T>, after: Maze<T>, wall_pos: WallPos, value: bool)
    requires
        before.consistent(),
        wall_pos.0.in_range(),
        before.shape.walls_spec(wall_pos.0).contains(wall_pos.1),
        after.is_set_open(before, wall_pos, value),
    ensures
        after.consistent(),
{
    let shape = before.shape;
    let back = shape.back_spec(wall_pos);
    shape::lemma_walls_of_room(shape, wall_pos.0);
    shape::lemma_back_back(shape, wall_pos);
    shape::lemma_back_in_room(shape, wall_pos);
    shape::lemma_wall_facts(shape, wall_pos.1.index as int);
    shape::lemma_wall_facts(shape, back.1.index as int);
    assert forall|p: Pos, k: int|
        p.in_range() && 0 <= k < after.shape.walls_spec(p).len() && after.rooms.inside(p)
            && after.rooms.inside(after.shape.back_spec((p, after.shape.walls_spec(p)[k])).0)
            implies #[trigger] after.open_spec(p, after.shape.walls_spec(p)[k].index as int)
            == after.is_open_spec(after.shape.back_spec((p, after.shape.walls_spec(p)[k]))) by {
        let w = shape.walls_spec(p)[k];
        let bk = shape.back_spec((p, w));
        shape::lemma_walls_of_room(shape, p);
        shape::lemma_back_back(shape, (p, w));
        shape::lemma_wall_facts(shape, w.index as int);
        shape::lemma_wall_facts(shape, bk.1.index as int);
        assert(before.open_spec(p, w.index as int) == before.is_open_spec(bk));
        if p == wall_pos.0 && w.index == wall_pos.1.index {
            assert(w == wall_pos.1);
        } else if p == back.0 && w.index == back.1.index {
            assert(w == back.1);
        } else if bk.0 == wall_pos.0 && bk.1.index == wall_pos.1.index {
            assert(bk.1 == wall_pos.1);
            assert(bk == wall_pos);
        } else if bk.0 == back.0 && bk.1.index == back.1.index {
            assert(bk.1 == back.1);
            assert(bk == back);
            assert((p, w) == wall_pos);
        }
    }
}

/// The room beyond the `k`th wall of the room at `pos`.
pub open spec fn pos_through(shape: Shape, pos: Pos, k: int) -> Pos {
    pos.offset(shape.walls_spec(pos)[k].dir.0 as int, shape.walls_spec(pos)[k].dir.1 as int)
}

/// Two positions inside a matrix of the given width with the same offset are
/// equal.
pub proof fn lemma_offset_injective(width: int, p: Pos, q: Pos)
    requires
        0 <= p.col < width,
        0 <= q.col < width,
        p.row * width + p.col == q.row * width + q.col,
    ensures
        p == q,
{
    if p.row < q.row {
        assert(p.row * width + width <= q.row * width) by (nonlinear_arith)
            requires
                p.row < q.row,
                width > 0,
        ;
    } else if p.row > q.row {
        assert(q.row * width + width <= p.row * width) by (nonlinear_arith)
            requires
                q.row < p.row,
                width > 0,
        ;
    }
}

} // verus!
