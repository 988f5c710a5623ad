//! A dense two dimensional container addressed by signed positions.

use vstd::prelude::*;

verus! {

/// The largest number of rooms along one side of a matrix.
///
/// Keeping sides below this bound leaves room in 64 bit physical coordinates
/// for every product the geometry computes.
pub const MAX_SIDE: usize = 0x8000;

/// A position in a matrix, as a column and a row.
///
/// Positions are not bounds checked: a position may lie outside of every
/// matrix.
#[derive(Clone, Copy, Debug, PartialEq, Eq, Hash, Structural)]
pub struct Pos {
    /// The column.
    pub col: isize,
    /// The row.
    pub row: isize,
}

/// The bound on the coordinates of positions that geometric functions accept.
pub const COORD_LIMIT: isize = 0x400_0000;

impl Pos {
    /// Whether both coordinates lie strictly within `COORD_LIMIT` of zero.
    pub open spec fn in_range(self) -> bool {
        -COORD_LIMIT < self.col < COORD_LIMIT && -COORD_LIMIT < self.row < COORD_LIMIT
    }

    /// The position `dcol` columns and `drow` rows away.
    pub open spec fn offset(self, dcol: int, drow: int) -> Pos {
        Pos { col: (self.col + dcol) as isize, row: (self.row + drow) as isize }
    }
}

/// A matrix of `width` columns and `height` rows stored row by row.
pub struct Matrix<T> {
    /// The number of columns.
    pub width: usize,
    /// The number of rows.
    pub height: usize,
    /// The cells, row by row.
    pub data: Vec<T>,
}

impl<T> Matrix<T> {
    /// The matrix holds exactly one cell per position and fits the side bound.
    pub open spec fn wf(&self) -> bool {
        &&& self.width <= MAX_SIDE
        &&& self.height <= MAX_SIDE
        &&& self.data@.len() == self.width * self.height
    }

    /// Whether `pos` addresses a cell of this matrix.
    pub open spec fn inside(&self, pos: Pos) -> bool {
        0 <= pos.col < self.width && 0 <= pos.row < self.height
    }

    /// The offset in `data` of the cell at `pos`.
    pub open spec fn offset_of(&self, pos: Pos) -> int {
        pos.row * self.width + pos.col
    }

    /// The value of the cell at `pos`.
    pub open spec fn at(&self, pos: Pos) -> T {
        self.data@[self.offset_of(pos)]
    }

    /// Whether `pos` addresses a cell of this matrix.
    pub fn is_inside(&self, pos: Pos) -> (r: bool)
        ensures
            r == self.inside(pos),
    {
        0 <= pos.col && (pos.col as usize) < self.width && 0 <= pos.row && (pos.row as usize)
            < self.height
    }

    /// The offset in `data` of the cell at an inside position.
    pub fn index_of(&self, pos: Pos) -> (r: usize)
        requires
            self.wf(),
            self.inside(pos),
        ensures
            r == self.offset_of(pos),
            0 <= r < self.data@.len(),
    {
        proof {
            lemma_offset_in_bounds(self.width as int, self.height as int, pos.col as int, pos.row as int);
        }
        (pos.row as usize) * self.width + (pos.col as usize)
    }

    /// Returns a reference to the cell at `pos`, or `None` if it is outside.
    pub fn get(&self, pos: Pos) -> (r: Option<&T>)
        requires
            self.wf(),
        ensures
            self.inside(pos) ==> r == Some(&self.at(pos)),
            !self.inside(pos) ==> r.is_none(),
    {
        if self.is_inside(pos) {
            let i = self.index_of(pos);
            Some(&self.data[i])
        } else {
            None
        }
    }

    /// Replaces the cell at an inside position.
    pub fn set(&mut self, pos: Pos, value: T)
        requires
            old(self).wf(),
            old(self).inside(pos),
        ensures
            final(self).wf(),
            final(self).width == old(self).width,
            final(self).height == old(self).height,
            final(self).data@ == old(self).data@.update(old(self).offset_of(pos), value),
    {
        let i = self.index_of(pos);
        self.data.set(i, value);
    }

    /// The position of the cell at offset `i` in `data`.
    pub open spec fn pos_of(&self, i: int) -> Pos {
        Pos { col: (i % self.width as int) as isize, row: (i / self.width as int) as isize }
    }
}

impl<T: Copy> Matrix<T> {
    /// Creates a matrix with every cell set to `value`.
    pub fn new(width: usize, height: usize, value: T) -> (r: Matrix<T>)
        requires
            width <= MAX_SIDE,
            height <= MAX_SIDE,
        ensures
            r.wf(),
            r.width == width,
            r.height == height,
            forall|i: int| 0 <= i < r.data@.len() ==> r.data@[i] == value,
    {
        proof {
            lemma_cells_fit(width as int, height as int);
        }
        let n = width * height;
        let mut data: Vec<T> = Vec::new();
        let mut i: usize = 0;
        while i < n
            invariant
                i <= n,
                data@.len() == i,
                forall|k: int| 0 <= k < i ==> data@[k] == value,
            decreases n - i,
        {
            data.push(value);
            i += 1;
        }
        Matrix { width, height, data }
    }
}

/// The offset of an inside position lies within the cells of the matrix.
pub proof fn lemma_offset_in_bounds(width: int, height: int, col: int, row: int)
    requires
        0 <= width <= MAX_SIDE,
        0 <= height <= MAX_SIDE,
        0 <= col < width,
        0 <= row < height,
    ensures
        0 <= row * width + col < width * height,
        width * height <= MAX_SIDE * MAX_SIDE,
{
    assert(0 <= row * width + col < width * height) by (nonlinear_arith)
        requires
            0 <= col < width,
            0 <= row < height,
    ;
    lemma_cells_fit(width, height);
}

/// The cell count of a matrix within the side bound fits in a `usize`.
pub proof fn lemma_cells_fit(width: int, height: int)
    requires
        0 <= width <= MAX_SIDE,
        0 <= height <= MAX_SIDE,
    ensures
        0 <= width * height <= MAX_SIDE * MAX_SIDE,
        MAX_SIDE * MAX_SIDE < usize::MAX,
{
    assert(0 <= width * height <= MAX_SIDE * MAX_SIDE) by (nonlinear_arith)
        requires
            0 <= width <= MAX_SIDE,
            0 <= height <= MAX_SIDE,
    ;
}

} // verus!
