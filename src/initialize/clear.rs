//! The strategy that clears every inner wall.

use vstd::prelude::*;

use crate::matrix::{Matrix, Pos};
use crate::maze::Maze;
use crate::shape::{self, WallPos};

use super::Randomizer;

verus! {

/// Whether `filter` selects `pos`: it is inside and its cell is `true`.
pub open spec fn selected(filter: Matrix<bool>, pos: Pos) -> bool {
    filter.inside(pos) && filter.at(pos)
}

/// Whether the wall with index `i` of the room at `pos` is a wall between
/// two rooms that `filter` selects.
pub open spec fn inner_wall<T>(maze: Maze<T>, filter: Matrix<bool>, pos: Pos, i: int) -> bool {
    selected(filter, pos) && exists|k: int|
        0 <= k < maze.shape.walls_spec(pos).len() && (#[trigger] maze.shape.walls_spec(
            pos,
        )[k]).index == i && selected(
            filter,
            maze.shape.back_spec((pos, maze.shape.walls_spec(pos)[k])).0,
        )
}

/// `after` is `before` with every wall between two selected rooms opened.
pub open spec fn is_cleared<T>(before: Maze<T>, filter: Matrix<bool>, after: Maze<T>) -> bool {
    &&& after.wf()
    &&& after.shape == before.shape
    &&& after.rooms.width == before.rooms.width
    &&& after.rooms.height == before.rooms.height
    &&& forall|p: Pos|
        #![trigger after.rooms.at(p)]
        after.rooms.inside(p) ==> after.rooms.at(p).data == before.rooms.at(p).data
            && after.rooms.at(p).visited == before.rooms.at(p).visited
    &&& forall|p: Pos, i: int|
        0 <= i < 32 ==> #[trigger] after.open_spec(p, i) == (before.open_spec(p, i) || inner_wall(
            before,
            filter,
            p,
            i,
        ))
}

/// Whether processing the `k`th wall of the room at `q` opens the wall with
/// index `i` of the room at `p`: both rooms on the sides of that wall are
/// selected, and `(p, i)` is that wall or its back.
pub open spec fn opens<T>(maze: Maze<T>, filter: Matrix<bool>, q: Pos, k: int, p: Pos, i: int) -> bool {
    let wall_pos: WallPos = (q, maze.shape.walls_spec(q)[k]);
    let back = maze.shape.back_spec(wall_pos);
    &&& selected(filter, q)
    &&& selected(filter, back.0)
    &&& ((p == q && i == wall_pos.1.index) || (p == back.0 && i == back.1.index))
}

/// Initialises a maze by clearing all inner walls: every wall between two
/// rooms that `filter` selects is opened. The random source is not used.
pub fn initialize<T, R: Randomizer>(maze: Maze<T>, _rng: &mut R, filter: &Matrix<bool>) -> (r: Maze<T>)
    requires
        maze.wf(),
        filter.wf(),
        filter.width == maze.rooms.width,
        filter.height == maze.rooms.height,
    ensures
        is_cleared(maze, *filter, r),
{
    let ghost before = maze;
    let mut maze = maze;
    let width = maze.width();
    let height = maze.height();
    let mut row: usize = 0;
    while row < height
        invariant
            before.wf(),
            filter.wf(),
            filter.width == width,
            filter.height == height,
            width == before.rooms.width,
            height == before.rooms.height,
            row <= height,
            maze.wf(),
            maze.shape == before.shape,
            maze.rooms.width == width,
            maze.rooms.height == height,
            forall|p: Pos|
                #![trigger maze.rooms.at(p)]
                maze.rooms.inside(p) ==> maze.rooms.at(p).data == before.rooms.at(p).data
                    && maze.rooms.at(p).visited == before.rooms.at(p).visited,
            forall|p: Pos, i: int|
                0 <= i < 32 ==> #[trigger] maze.open_spec(p, i) == (before.open_spec(p, i)
                    || exists|q: Pos, k: int|
                    0 <= q.row < row && 0 <= q.col < width && 0 <= k < before.shape.walls_spec(
                        q,
                    ).len() && #[trigger] opens(before, *filter, q, k, p, i)),
        decreases height - row,
    {
        let mut col: usize = 0;
        while col < width
            invariant
                before.wf(),
                filter.wf(),
                filter.width == width,
                filter.height == height,
                width == before.rooms.width,
                height == before.rooms.height,
                row < height,
                col <= width,
                maze.wf(),
                maze.shape == before.shape,
                maze.rooms.width == width,
                maze.rooms.height == height,
                forall|p: Pos|
                    #![trigger maze.rooms.at(p)]
                    maze.rooms.inside(p) ==> maze.rooms.at(p).data == before.rooms.at(p).data
                        && maze.rooms.at(p).visited == before.rooms.at(p).visited,
                forall|p: Pos, i: int|
                    0 <= i < 32 ==> #[trigger] maze.open_spec(p, i) == (before.open_spec(p, i)
                        || exists|q: Pos, k: int|
                        ((0 <= q.row < row && 0 <= q.col < width) || (q.row == row && 0 <= q.col
                            < col)) && 0 <= k < before.shape.walls_spec(q).len() && #[trigger] opens(
                            before,
                            *filter,
                            q,
                            k,
                            p,
                            i,
                        )),
            decreases width - col,
        {
            let pos = Pos { col: col as isize, row: row as isize };
            let selected_here = match filter.get(pos) {
                Some(v) => *v,
                None => false,
            };
            if selected_here {
                let walls = maze.walls(pos);
                proof {
                    shape::lemma_walls_of_room(maze.shape, pos);
                }
                let mut k: usize = 0;
                while k < walls.len()
                    invariant
                        before.wf(),
                        filter.wf(),
                        filter.width == width,
                        filter.height == height,
                        width == before.rooms.width,
                        height == before.rooms.height,
                        row < height,
                        col < width,
                        pos == (Pos { col: col as isize, row: row as isize }),
                        selected(*filter, pos),
                        walls@ == before.shape.walls_spec(pos),
                        forall|j: int|
                            0 <= j < walls@.len() ==> before.shape.has_wall(#[trigger] walls@[j]),
                        k <= walls.len(),
                        maze.wf(),
                        maze.shape == before.shape,
                        maze.rooms.width == width,
                        maze.rooms.height == height,
                        forall|p: Pos|
                            #![trigger maze.rooms.at(p)]
                            maze.rooms.inside(p) ==> maze.rooms.at(p).data == before.rooms.at(
                                p,
                            ).data && maze.rooms.at(p).visited == before.rooms.at(p).visited,
                        forall|p: Pos, i: int|
                            0 <= i < 32 ==> #[trigger] maze.open_spec(p, i) == (before.open_spec(p, i)
                                || exists|q: Pos, j: int|
                                (((0 <= q.row < row && 0 <= q.col < width) || (q.row == row && 0
                                    <= q.col < col)) && 0 <= j < before.shape.walls_spec(q).len()
                                    || (q == pos && 0 <= j < k)) && #[trigger] opens(
                                    before,
                                    *filter,
                                    q,
                                    j,
                                    p,
                                    i,
                                )),
                    decreases walls.len() - k,
                {
                    let wall = walls[k];
                    let back = maze.back((pos, wall));
                    let other_selected = match filter.get(back.0) {
                        Some(v) => *v,
                        None => false,
                    };
                    if other_selected {
                        let ghost mid = maze;
                        maze.open((pos, wall));
                        proof {
                            lemma_open_step(before, *filter, mid, maze, pos, k as int, row as int, col as int);
                        }
                    } else {
                        proof {
                            assert forall|p: Pos, i: int| !opens(before, *filter, pos, k as int, p, i) by {}
                        }
                    }
                    proof {
                        assert forall|p: Pos, i: int| 0 <= i < 32 implies #[trigger] maze.open_spec(p, i) == (
                            before.open_spec(p, i) || exists|q: Pos, j: int|
                            (((0 <= q.row < row && 0 <= q.col < width) || (q.row == row && 0
                                <= q.col < col)) && 0 <= j < before.shape.walls_spec(q).len()
                                || (q == pos && 0 <= j < k + 1)) && #[trigger] opens(
                                before,
                                *filter,
                                q,
                                j,
                                p,
                                i,
                            )) by {
                            if opens(before, *filter, pos, k as int, p, i) {
                                assert(maze.open_spec(p, i));
                            }
                        }
                    }
                    k += 1;
                }
                proof {
                    assert forall|p: Pos, i: int| 0 <= i < 32 implies #[trigger] maze.open_spec(p, i) == (
                        before.open_spec(p, i) || exists|q: Pos, j: int|
                        ((0 <= q.row < row && 0 <= q.col < width) || (q.row == row && 0 <= q.col
                            < col + 1)) && 0 <= j < before.shape.walls_spec(q).len() && #[trigger] opens(
                            before,
                            *filter,
                            q,
                            j,
                            p,
                            i,
                        )) by {
                        if maze.open_spec(p, i) && !before.open_spec(p, i) {
                            let (q, j) = choose|q: Pos, j: int|
                                (((0 <= q.row < row && 0 <= q.col < width) || (q.row == row && 0
                                    <= q.col < col)) && 0 <= j < before.shape.walls_spec(q).len()
                                    || (q == pos && 0 <= j < walls@.len())) && #[trigger] opens(
                                    before,
                                    *filter,
                                    q,
                                    j,
                                    p,
                                    i,
                                );
                            assert(opens(before, *filter, q, j, p, i));
                        }
                    }
                }
            } else {
                proof {
                    assert forall|p: Pos, i: int, j: int| !opens(before, *filter, pos, j, p, i) by {}
                    assert forall|p: Pos, i: int| 0 <= i < 32 implies #[trigger] maze.open_spec(p, i) == (
                        before.open_spec(p, i) || exists|q: Pos, j: int|
                        ((0 <= q.row < row && 0 <= q.col < width) || (q.row == row && 0 <= q.col
                            < col + 1)) && 0 <= j < before.shape.walls_spec(q).len() && #[trigger] opens(
                            before,
                            *filter,
                            q,
                            j,
                            p,
                            i,
                        )) by {
                        if maze.open_spec(p, i) && !before.open_spec(p, i) {
                            let (q, j) = choose|q: Pos, j: int|
                                ((0 <= q.row < row && 0 <= q.col < width) || (q.row == row && 0
                                    <= q.col < col)) && 0 <= j < before.shape.walls_spec(q).len()
                                    && #[trigger] opens(before, *filter, q, j, p, i);
                            assert(opens(before, *filter, q, j, p, i));
                        }
                    }
                }
            }
            col += 1;
        }
        row += 1;
    }
    proof {
        assert forall|p: Pos, i: int| 0 <= i < 32 implies #[trigger] maze.open_spec(p, i) == (
            before.open_spec(p, i) || inner_wall(before, *filter, p, i)) by {
            lemma_opens_iff_inner(before, *filter, p, i);
        }
    }
    maze
}

/// Clearing keeps a maze consistent: a wall lies between two selected rooms
/// exactly when its back does.
pub proof fn lemma_cleared_consistent<T>(before: Maze<T>, filter: Matrix<bool>, after: Maze<T>)
    requires
        before.consistent(),
        is_cleared(before, filter, after),
    ensures
        after.consistent(),
{
    let shape = before.shape;
    assert forall|p: Pos, k: int|
        p.in_range() && 0 <= k < after.shape.walls_spec(p).len() && after.rooms.inside(p)
            && after.rooms.inside(after.shape.back_spec((p, after.shape.walls_spec(p)[k])).0)
            implies #[trigger] after.open_spec(p, after.shape.walls_spec(p)[k].index as int)
            == after.is_open_spec(after.shape.back_spec((p, after.shape.walls_spec(p)[k]))) by {
        let w = shape.walls_spec(p)[k];
        let bk = shape.back_spec((p, w));
        shape::lemma_walls_of_room(shape, p);
        shape::lemma_back_back(shape, (p, w));
        shape::lemma_back_in_room(shape, (p, w));
        shape::lemma_wall_facts(shape, w.index as int);
        shape::lemma_wall_facts(shape, bk.1.index as int);
        shape::lemma_walls_of_room(shape, bk.0);
        assert(before.open_spec(p, w.index as int) == before.is_open_spec(bk));
        lemma_inner_wall_is(before, filter, p, k);
        let kb = choose|kb: int| 0 <= kb < shape.walls_spec(bk.0).len() && shape.walls_spec(bk.0)[kb] == bk.1;
        lemma_inner_wall_is(before, filter, bk.0, kb);
    }
}

/// A wall of a room lies between two selected rooms exactly when the room
/// and the one behind the wall are selected.
proof fn lemma_inner_wall_is<T>(maze: Maze<T>, filter: Matrix<bool>, p: Pos, k: int)
    requires
        0 <= k < maze.shape.walls_spec(p).len(),
    ensures
        inner_wall(maze, filter, p, maze.shape.walls_spec(p)[k].index as int) == (selected(filter, p)
            && selected(filter, maze.shape.back_spec((p, maze.shape.walls_spec(p)[k])).0)),
{
    let shape = maze.shape;
    let ws = shape.walls_spec(p);
    shape::lemma_walls_of_room(shape, p);
    if inner_wall(maze, filter, p, ws[k].index as int) {
        let j = choose|j: int|
            0 <= j < ws.len() && (#[trigger] shape.walls_spec(p)[j]).index == ws[k].index && selected(
                filter,
                shape.back_spec((p, shape.walls_spec(p)[j])).0,
            );
        shape::lemma_wall_facts(shape, ws[j].index as int);
        assert(ws[j] == ws[k]);
    }
}

/// Opening the `k`th wall of a selected room whose neighbour is selected
/// adds exactly the walls that this step opens.
proof fn lemma_open_step<T>(
    before: Maze<T>,
    filter: Matrix<bool>,
    mid: Maze<T>,
    after: Maze<T>,
    pos: Pos,
    k: int,
    row: int,
    col: int,
)
    requires
        pos == (Pos { col: col as isize, row: row as isize }),
        0 <= row < before.rooms.height,
        0 <= col < before.rooms.width,
        0 <= k < before.shape.walls_spec(pos).len(),
        selected(filter, pos),
        selected(filter, before.shape.back_spec((pos, before.shape.walls_spec(pos)[k])).0),
        mid.shape == before.shape,
        after.is_set_open(mid, (pos, before.shape.walls_spec(pos)[k]), true),
        filter.width == before.rooms.width,
        filter.height == before.rooms.height,
        mid.rooms.width == before.rooms.width,
        mid.rooms.height == before.rooms.height,
    ensures
        forall|p: Pos, i: int|
            0 <= i < 32 ==> #[trigger] after.open_spec(p, i) == (mid.open_spec(p, i) || opens(
                before,
                filter,
                pos,
                k,
                p,
                i,
            )),
{
}

/// A wall is opened by some step of the scan exactly when it lies between two
/// selected rooms.
proof fn lemma_opens_iff_inner<T>(maze: Maze<T>, filter: Matrix<bool>, p: Pos, i: int)
    requires
        maze.wf(),
        filter.width == maze.rooms.width,
        filter.height == maze.rooms.height,
    ensures
        (exists|q: Pos, k: int|
            0 <= q.row < maze.rooms.height && 0 <= q.col < maze.rooms.width && 0 <= k
                < maze.shape.walls_spec(q).len() && #[trigger] opens(maze, filter, q, k, p, i))
            == inner_wall(maze, filter, p, i),
{
    let shape = maze.shape;
    if exists|q: Pos, k: int|
        0 <= q.row < maze.rooms.height && 0 <= q.col < maze.rooms.width && 0 <= k
            < shape.walls_spec(q).len() && #[trigger] opens(maze, filter, q, k, p, i) {
        let (q, k) = choose|q: Pos, k: int|
            0 <= q.row < maze.rooms.height && 0 <= q.col < maze.rooms.width && 0 <= k
                < shape.walls_spec(q).len() && #[trigger] opens(maze, filter, q, k, p, i);
        let wall_pos: WallPos = (q, shape.walls_spec(q)[k]);
        let back = shape.back_spec(wall_pos);
        shape::lemma_walls_of_room(shape, q);
        if p == q && i == wall_pos.1.index {
            assert(inner_wall(maze, filter, p, i));
        } else {
            shape::lemma_back_in_room(shape, wall_pos);
            shape::lemma_back_back(shape, wall_pos);
            let j = choose|j: int| 0 <= j < shape.walls_spec(p).len() && shape.walls_spec(p)[j] == back.1;
            assert(shape.walls_spec(p)[j].index == i);
            assert(inner_wall(maze, filter, p, i));
        }
    }
    if inner_wall(maze, filter, p, i) {
        let k = choose|k: int|
            0 <= k < shape.walls_spec(p).len() && (#[trigger] shape.walls_spec(p)[k]).index == i
                && selected(filter, shape.back_spec((p, shape.walls_spec(p)[k])).0);
        assert(opens(maze, filter, p, k, p, i));
    }
}

} // verus!
