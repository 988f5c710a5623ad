//! Walking along the walls of the open area around a wall.

use vstd::prelude::*;

use crate::matrix::{Pos, MAX_SIDE};
use crate::maze::Maze;
use crate::shape::{self, Shape, Wall, WallPos};

verus! {

/// The largest number of walls that meet at one corner.
pub const CORNER_TURNS: usize = 6;

/// Turns around the corner at the start of `wall_pos` through open walls, at
/// most `turns` times: while the wall is open, step through it and take the
/// next wall of the room on the other side.
pub open spec fn turn<T>(maze: Maze<T>, wall_pos: WallPos, turns: nat) -> WallPos
    decreases turns,
{
    if turns == 0 || !maze.is_open_spec(wall_pos) {
        wall_pos
    } else {
        let back = maze.shape.back_spec(wall_pos);
        turn(maze, (back.0, maze.shape.wall_spec(back.1.next as int)), (turns - 1) as nat)
    }
}

/// The wall after `wall_pos` along the boundary of the open area: the next
/// wall of the same room, or, if that is open, the first closed wall found by
/// turning around their shared corner.
#[verifier::opaque]
pub open spec fn step<T>(maze: Maze<T>, wall_pos: WallPos) -> WallPos {
    turn(maze, (wall_pos.0, maze.shape.wall_spec(wall_pos.1.next as int)), CORNER_TURNS as nat)
}

/// The wall reached from `start` after `n` steps.
pub open spec fn steps<T>(maze: Maze<T>, start: WallPos, n: nat) -> WallPos
    decreases n,
{
    if n == 0 {
        start
    } else {
        step(maze, steps(maze, start, (n - 1) as nat))
    }
}

/// Whether `walk` is the walk from `start`: each wall follows the one before
/// it, none but the first is `start`, and it ends where the next step returns
/// to `start`, or after `limit` walls.
pub open spec fn is_walk<T>(maze: Maze<T>, start: WallPos, walk: Seq<WallPos>, limit: int) -> bool {
    &&& 0 < walk.len() <= limit
    &&& forall|j: int| 0 <= j < walk.len() ==> #[trigger] walk[j] == steps(maze, start, j as nat)
    &&& forall|j: int| 0 < j < walk.len() ==> #[trigger] walk[j] != start
    &&& walk.len() < limit ==> steps(maze, start, walk.len() as nat) == start
}

/// Whether a wall position can be walked from: its room is in range and its
/// wall belongs to the shape.
pub open spec fn walkable(shape: Shape, wall_pos: WallPos) -> bool {
    wall_pos.0.in_range() && shape.has_wall(wall_pos.1)
}

/// The number of walls after which a walk gives up: more than the walls of
/// the maze, its border and the room of the start.
#[verifier::opaque]
pub open spec fn walk_limit<T>(maze: Maze<T>) -> int {
    ((maze.rooms.width + 2) * (maze.rooms.height + 2) + 1) * 12
}

/// Walls stay walkable while turning.
proof fn lemma_turn_walkable<T>(maze: Maze<T>, wall_pos: WallPos, turns: nat)
    requires
        maze.wf(),
        walkable(maze.shape, wall_pos),
    ensures
        walkable(maze.shape, turn(maze, wall_pos, turns)),
    decreases turns,
{
    if turns > 0 && maze.is_open_spec(wall_pos) {
        let back = maze.shape.back_spec(wall_pos);
        shape::lemma_wall_facts(maze.shape, wall_pos.1.index as int);
        shape::lemma_wall_facts(maze.shape, back.1.index as int);
        shape::lemma_wall_facts(maze.shape, back.1.next as int);
        lemma_turn_walkable(maze, (back.0, maze.shape.wall_spec(back.1.next as int)), (turns - 1) as nat);
    }
}

impl<T> Maze<T> {
    /// Returns the wall after `wall_pos` along the boundary of the open area
    /// around it.
    pub fn follow_step(&self, wall_pos: WallPos) -> (r: WallPos)
        requires
            self.wf(),
            walkable(self.shape, wall_pos),
        ensures
            r == step(*self, wall_pos),
            walkable(self.shape, r),
    {
        proof {
            shape::lemma_wall_facts(self.shape, wall_pos.1.index as int);
            reveal(step);
        }
        let mut current = (wall_pos.0, self.shape.wall(wall_pos.1.next));
        let mut turns: usize = CORNER_TURNS;
        proof {
            shape::lemma_wall_facts(self.shape, current.1.index as int);
        }
        while turns > 0
            invariant
                self.wf(),
                walkable(self.shape, current),
                turn(*self, current, turns as nat) == step(*self, wall_pos),
            decreases turns,
        {
            proof {
                shape::lemma_wall_facts(self.shape, current.1.index as int);
            }
            if !self.is_open(current) {
                proof {
                    lemma_turn_walkable(*self, current, turns as nat);
                }
                return current;
            }
            let back = self.shape.back(current);
            proof {
                shape::lemma_wall_facts(self.shape, back.1.index as int);
                shape::lemma_wall_facts(self.shape, back.1.next as int);
            }
            current = (back.0, self.shape.wall(back.1.next));
            turns -= 1;
        }
        current
    }

    /// Follows the boundary of the open area around `start`, clockwise, and
    /// returns its walls, starting with `start`, until the walk comes back to
    /// `start`.
    pub fn follow_wall(&self, start: WallPos) -> (r: Vec<WallPos>)
        requires
            self.wf(),
            walkable(self.shape, start),
        ensures
            is_walk(*self, start, r@, walk_limit(*self)),
    {
        proof {
            let w = self.rooms.width as int + 2;
            let h = self.rooms.height as int + 2;
            assert(0 <= w * h <= (MAX_SIDE + 2) * (MAX_SIDE + 2)) by (nonlinear_arith)
                requires
                    0 <= w <= MAX_SIDE + 2,
                    0 <= h <= MAX_SIDE + 2,
            ;
        }
        let limit: u64 = ((self.width() as u64 + 2) * (self.height() as u64 + 2) + 1) * 12;
        proof {
            reveal(walk_limit);
        }
        let mut r: Vec<WallPos> = Vec::new();
        r.push(start);
        let mut current = start;
        while (r.len() as u64) < limit
            invariant
                self.wf(),
                limit == walk_limit(*self),
                walkable(self.shape, start),
                walkable(self.shape, current),
                0 < r@.len() <= limit,
                current == r@[r@.len() - 1],
                forall|j: int| 0 <= j < r@.len() ==> #[trigger] r@[j] == steps(*self, start, j as nat),
                forall|j: int| 0 < j < r@.len() ==> #[trigger] r@[j] != start,
            decreases limit - r@.len(),
        {
            let next = self.follow_step(current);
            if next.0 == start.0 && next.1 == start.1 {
                proof {
                    shape::lemma_wall_facts(self.shape, next.1.index as int);
                    shape::lemma_wall_facts(self.shape, start.1.index as int);
                    assert(next == start);
                    assert(steps(*self, start, r@.len() as nat) == step(*self, steps(*self, start, (r@.len() - 1) as nat)));
                }
                return r;
            }
            let ghost old_r = r@;
            r.push(next);
            proof {
                assert forall|j: int| 0 <= j < r@.len() implies #[trigger] r@[j] == steps(*self, start, j as nat) by {
                    if j < old_r.len() {
                        assert(r@[j] == old_r[j]);
                    }
                }
                assert forall|j: int| 0 < j < r@.len() implies #[trigger] r@[j] != start by {
                    if j < old_r.len() {
                        assert(r@[j] == old_r[j]);
                    }
                }
            }
            current = next;
        }
        r
    }
}

impl<T> Maze<T> {
    /// Returns the walls that share the first corner of `wall_pos`: the wall
    /// itself, then the others going round the corner.
    pub fn corner_walls(&self, wall_pos: WallPos) -> (r: Vec<WallPos>)
        requires
            walkable(self.shape, wall_pos),
        ensures
            r@ == self.shape.corner_walls_spec(wall_pos),
    {
        proof {
            shape::lemma_wall_facts(self.shape, wall_pos.1.index as int);
        }
        let offsets = self.shape.corner_offsets(wall_pos.1.index);
        let mut r: Vec<WallPos> = Vec::new();
        r.push(wall_pos);
        let mut k: usize = 0;
        let ghost expected = self.shape.corner_walls_spec(wall_pos);
        while k < offsets.len()
            invariant
                walkable(self.shape, wall_pos),
                offsets@ == self.shape.corner_offsets_spec(wall_pos.1.index as int),
                expected == self.shape.corner_walls_spec(wall_pos),
                k <= offsets@.len(),
                r@.len() == k + 1,
                forall|j: int| 0 <= j <= k ==> #[trigger] r@[j] == expected[j],
            decreases offsets@.len() - k,
        {
            let o = offsets[k];
            proof {
                shape::lemma_offsets_small(self.shape, wall_pos.1.index as int, k as int);
            }
            let q = Pos { col: wall_pos.0.col + o.dx, row: wall_pos.0.row + o.dy };
            let w = self.shape.wall(o.wall);
            r.push((q, w));
            k += 1;
        }
        proof {
            assert(r@ =~= expected);
        }
        r
    }
}

/// The next wall of the same room, going clockwise.
#[verifier::opaque]
pub open spec fn next_wall(shape: Shape, wall: Wall) -> Wall {
    shape.wall_spec(wall.next as int)
}

/// In a maze whose walls are all closed, the walk from any wall of a room
/// takes every wall of that room once, in order, and then returns to the
/// start.
pub proof fn lemma_closed_walk<T>(maze: Maze<T>, pos: Pos, k: int, walk: Seq<WallPos>)
    requires
        maze.wf(),
        pos.in_range(),
        0 <= k < maze.shape.walls_spec(pos).len(),
        forall|p: Pos, i: int| !(#[trigger] maze.open_spec(p, i)),
        is_walk(maze, (pos, maze.shape.walls_spec(pos)[k]), walk, walk_limit(maze)),
    ensures
        walk.len() == maze.shape.wall_count_spec(),
        forall|j: int|
            0 <= j < walk.len() ==> #[trigger] walk[j] == (pos, maze.shape.walls_spec(pos)[(k + j)
                % (walk.len() as int)]),
        steps(maze, (pos, maze.shape.walls_spec(pos)[k]), walk.len() as nat) == (pos, maze.shape.walls_spec(pos)[k]),
{
    let ws = maze.shape.walls_spec(pos);
    shape::lemma_walls_of_room(maze.shape, pos);
    shape::lemma_next_in_room(maze.shape, pos);
    shape::lemma_directions_unique(maze.shape, pos);
    assert forall|i: int| 0 <= i < ws.len() implies #[trigger] next_wall(maze.shape, ws[i]) == ws[(i + 1) % (ws.len() as int)] by {
        reveal(next_wall);
    }
    reveal(walk_limit);
    let limit = walk_limit(maze);
    assert(limit > ws.len()) by (nonlinear_arith)
        requires
            limit == ((maze.rooms.width + 2) * (maze.rooms.height + 2) + 1) * 12,
            maze.rooms.width >= 0,
            maze.rooms.height >= 0,
            ws.len() <= 6,
    ;
    assert forall|w: Wall| #[trigger] step(maze, (pos, w)) == (pos, next_wall(maze.shape, w)) by {
        lemma_closed_step(maze, (pos, w));
    }
    lemma_closed_cycle(maze, pos, ws, k, walk, limit);
}

/// The walk from a wall of a room whose walls, listed in `ws`, are linked in
/// one cycle and all closed goes round the room once.
proof fn lemma_closed_cycle<T>(maze: Maze<T>, pos: Pos, ws: Seq<Wall>, k: int, walk: Seq<WallPos>, limit: int)
    requires
        3 <= ws.len() <= 6,
        0 <= k < ws.len(),
        limit > ws.len(),
        forall|w: Wall| #[trigger] step(maze, (pos, w)) == (pos, next_wall(maze.shape, w)),
        forall|i: int| 0 <= i < ws.len() ==> #[trigger] next_wall(maze.shape, ws[i]) == ws[(i + 1) % (ws.len() as int)],
        forall|i1: int, i2: int| 0 <= i1 < ws.len() && 0 <= i2 < ws.len() && (#[trigger] ws[i1]).dir == (#[trigger] ws[i2]).dir ==> i1 == i2,
        is_walk(maze, (pos, ws[k]), walk, limit),
    ensures
        walk.len() == ws.len(),
        forall|j: int| 0 <= j < walk.len() ==> #[trigger] walk[j] == (pos, ws[(k + j) % (walk.len() as int)]),
        steps(maze, (pos, ws[k]), walk.len() as nat) == (pos, ws[k]),
{
    let n = ws.len() as int;
    let start = (pos, ws[k]);
    assert forall|j: nat| j <= n implies #[trigger] steps(maze, start, j) == (pos, ws[(k + j) % n]) by {
        lemma_closed_steps(maze, pos, ws, k, j);
    }
    assert forall|j: int| 0 < j < n implies #[trigger] steps(maze, start, j as nat) != start by {
        assert(steps(maze, start, j as nat) == (pos, ws[(k + j) % n]));
        lemma_shifted_index(k, j, n);
        assert(ws[(k + j) % n].dir != ws[k].dir);
    }
    assert(steps(maze, start, n as nat) == start) by {
        vstd::arithmetic::div_mod::lemma_mod_add_multiples_vanish(k, n);
        vstd::arithmetic::div_mod::lemma_small_mod(k as nat, n as nat);
    }
    if walk.len() < n {
        let len = walk.len() as int;
        assert(steps(maze, start, len as nat) != start);
        assert(steps(maze, start, walk.len() as nat) == start);
        assert(false);
    }
    if walk.len() > n {
        assert(walk[n] == steps(maze, start, n as nat));
        assert(false);
    }
}

/// Shifting an index by less than a full turn moves it.
proof fn lemma_shifted_index(k: int, j: int, n: int)
    requires
        0 <= k < n,
        0 < j < n,
    ensures
        0 <= (k + j) % n < n,
        (k + j) % n != k,
{
    vstd::arithmetic::div_mod::lemma_mod_bound(k + j, n);
    if (k + j) % n == k {
        vstd::arithmetic::div_mod::lemma_fundamental_div_mod(k + j, n);
        assert(false) by (nonlinear_arith)
            requires
                k + j == n * ((k + j) / n) + k,
                0 < j < n,
                0 <= k < n,
        ;
    }
}

/// In a maze whose walls are all closed, a step moves to the next wall of the
/// same room.
proof fn lemma_closed_step<T>(maze: Maze<T>, wall_pos: WallPos)
    requires
        forall|p: Pos, i: int| !(#[trigger] maze.open_spec(p, i)),
    ensures
        step(maze, wall_pos) == (wall_pos.0, next_wall(maze.shape, wall_pos.1)),
{
    reveal(step);
    reveal(next_wall);
    let next = (wall_pos.0, maze.shape.wall_spec(wall_pos.1.next as int));
    assert(!maze.is_open_spec(next));
}

/// Each step from a wall of a room whose walls all step to the next moves to
/// the next wall of that room.
proof fn lemma_closed_steps<T>(maze: Maze<T>, pos: Pos, ws: Seq<Wall>, k: int, j: nat)
    requires
        3 <= ws.len(),
        0 <= k < ws.len(),
        forall|w: Wall| #[trigger] step(maze, (pos, w)) == (pos, next_wall(maze.shape, w)),
        forall|i: int| 0 <= i < ws.len() ==> #[trigger] next_wall(maze.shape, ws[i]) == ws[(i + 1) % (ws.len() as int)],
    ensures
        steps(maze, (pos, ws[k]), j) == (pos, ws[(k + j) % (ws.len() as int)]),
    decreases j,
{
    let n = ws.len() as int;
    if j == 0 {
        vstd::arithmetic::div_mod::lemma_small_mod(k as nat, n as nat);
    } else {
        lemma_closed_steps(maze, pos, ws, k, (j - 1) as nat);
        let i = (k + j - 1) % n;
        vstd::arithmetic::div_mod::lemma_mod_bound(k + j - 1, n);
        assert(step(maze, (pos, ws[i])) == (pos, next_wall(maze.shape, ws[i])));
        assert((i + 1) % n == (k + j) % n) by {
            vstd::arithmetic::div_mod::lemma_add_mod_noop(k + j - 1, 1, n);
            vstd::arithmetic::div_mod::lemma_small_mod(1, n as nat);
        }
    }
}

} // verus!