//! Paths through open walls, and heat maps of how often rooms are passed.

use vstd::prelude::*;

use crate::matrix::{self, Matrix, Pos};
use crate::maze::{self, Maze};
use crate::shape;

verus! {

/// Whether `path` leads from `from` to `to` through rooms of the maze, each
/// connected to the next.
pub open spec fn is_path<T>(maze: Maze<T>, path: Seq<Pos>, from: Pos, to: Pos) -> bool {
    &&& path.len() > 0
    &&& path[0] == from
    &&& path[path.len() - 1] == to
    &&& forall|i: int| 0 <= i < path.len() ==> maze.rooms.inside(#[trigger] path[i])
    &&& forall|i: int| 0 <= i < path.len() - 1 ==> maze.connected_spec(#[trigger] path[i], path[i + 1])
}

/// Whether some path leads from `from` to `to`.
pub open spec fn reachable<T>(maze: Maze<T>, from: Pos, to: Pos) -> bool {
    exists|path: Seq<Pos>| #[trigger] is_path(maze, path, from, to)
}

/// A path from a room of a set that holds every inside room connected to one
/// of its rooms stays in the set.
proof fn lemma_closed_set_holds_path<T>(maze: Maze<T>, seen: Matrix<bool>, path: Seq<Pos>, from: Pos, to: Pos)
    requires
        seen.width == maze.rooms.width,
        seen.height == maze.rooms.height,
        is_path(maze, path, from, to),
        seen.at(from),
        forall|p: Pos, q: Pos|
            maze.rooms.inside(p) && seen.at(p) && maze.rooms.inside(q) && #[trigger] maze.connected_spec(p, q) ==> #[trigger] seen.at(q),
    ensures
        seen.at(to),
{
    let n = path.len() as int;
    assert forall|i: int| 0 <= i < n implies #[trigger] seen.at(path[i]) by {
        lemma_seen_prefix(maze, seen, path, i);
    }
    assert(seen.at(path[n - 1]));
}

/// Induction step of `lemma_closed_set_holds_path`.
proof fn lemma_seen_prefix<T>(maze: Maze<T>, seen: Matrix<bool>, path: Seq<Pos>, i: int)
    requires
        0 <= i < path.len(),
        forall|j: int| 0 <= j < path.len() ==> maze.rooms.inside(#[trigger] path[j]),
        forall|j: int| 0 <= j < path.len() - 1 ==> maze.connected_spec(#[trigger] path[j], path[j + 1]),
        seen.at(path[0]),
        forall|p: Pos, q: Pos|
            maze.rooms.inside(p) && seen.at(p) && maze.rooms.inside(q) && #[trigger] maze.connected_spec(p, q) ==> #[trigger] seen.at(q),
    ensures
        seen.at(path[i]),
    decreases i,
{
    if i > 0 {
        lemma_seen_prefix(maze, seen, path, i - 1);
        assert(maze.connected_spec(path[i - 1], path[i]));
    }
}

/// The state of a breadth first search: the rooms seen, in the order they
/// were seen, and for each the room it was reached from.
pub struct Search {
    /// Whether each room has been seen.
    pub seen: Matrix<bool>,
    /// The room from which each seen room was reached.
    pub parent: Matrix<Pos>,
    /// The index in `queue` of each seen room.
    pub order: Matrix<usize>,
    /// The seen rooms, in the order they were seen.
    pub queue: Vec<Pos>,
}

impl Search {
    /// The search state is consistent for a search from `from` in `maze`.
    pub open spec fn inv<T>(&self, maze: Maze<T>, from: Pos) -> bool {
        let width = maze.rooms.width;
        let height = maze.rooms.height;
        &&& maze.wf()
        &&& maze.rooms.inside(from)
        &&& self.seen.wf() && self.parent.wf() && self.order.wf()
        &&& self.seen.width == width && self.seen.height == height
        &&& self.parent.width == width && self.parent.height == height
        &&& self.order.width == width && self.order.height == height
        &&& self.queue@.len() <= width * height
        &&& self.queue@.no_duplicates()
        &&& self.queue@.len() > 0
        &&& self.queue@[0] == from
        &&& forall|i: int| 0 <= i < self.queue@.len() ==> maze.rooms.inside(#[trigger] self.queue@[i])
        &&& forall|i: int|
            0 <= i < self.queue@.len() ==> self.seen.at(#[trigger] self.queue@[i]) && self.order.at(self.queue@[i]) == i
        &&& forall|p: Pos| #![trigger self.seen.at(p)] self.seen.inside(p) && self.seen.at(p) ==> self.queue@.contains(p)
        &&& forall|i: int| 0 < i < self.queue@.len() ==> {
            let p = #[trigger] self.queue@[i];
            &&& self.seen.at(self.parent.at(p))
            &&& self.parent.inside(self.parent.at(p))
            &&& self.order.at(self.parent.at(p)) < i
            &&& maze.connected_spec(self.parent.at(p), p)
        }
    }

    /// Every room connected to one of the first `head` rooms of the queue has
    /// been seen.
    pub open spec fn closed_below<T>(&self, maze: Maze<T>, head: int) -> bool {
        forall|i: int, q: Pos|
            0 <= i < head && maze.rooms.inside(q) && #[trigger] maze.connected_spec(#[trigger] self.queue@[i], q) ==> self.seen.at(q)
    }

    /// Starts a search from `from`.
    pub fn start<T>(maze: &Maze<T>, from: Pos) -> (r: Search)
        requires
            maze.wf(),
            maze.rooms.inside(from),
        ensures
            r.inv(*maze, from),
            r.queue@ == seq![from],
    {
        let width = maze.width();
        let height = maze.height();
        let mut seen = Matrix::new(width, height, false);
        let ghost seen0 = seen;
        let parent: Matrix<Pos> = Matrix::new(width, height, from);
        let order: Matrix<usize> = Matrix::new(width, height, 0);
        seen.set(from, true);
        let mut queue: Vec<Pos> = Vec::new();
        queue.push(from);
        proof {
            lemma_set_at(seen0, seen, from, true);
            assert(queue@.len() <= width * height) by (nonlinear_arith)
                requires
                    queue@.len() == 1,
                    width >= 1,
                    height >= 1,
            ;
            assert forall|p: Pos| #![trigger seen.at(p)] seen.inside(p) && seen.at(p) implies queue@.contains(p) by {
                matrix::lemma_offset_in_bounds(width as int, height as int, p.col as int, p.row as int);
                if p != from {
                    assert(seen0.at(p) == false);
                }
                assert(queue@[0] == from);
            }
            matrix::lemma_offset_in_bounds(width as int, height as int, from.col as int, from.row as int);
            assert(order.at(queue@[0]) == 0);
        }
        Search { seen, parent, order, queue }
    }

    /// Marks `next`, reached from the seen room `pos`, as seen.
    pub fn visit<T>(&mut self, maze: &Maze<T>, from: Pos, pos: Pos, next: Pos)
        requires
            old(self).inv(*maze, from),
            old(self).queue@.contains(pos),
            maze.rooms.inside(next),
            !old(self).seen.at(next),
            maze.connected_spec(pos, next),
        ensures
            final(self).inv(*maze, from),
            final(self).queue@ == old(self).queue@.push(next),
            forall|p: Pos|
                #![trigger final(self).seen.at(p)]
                final(self).seen.inside(p) ==> final(self).seen.at(p) == (old(self).seen.at(p) || p == next),
    {
        let ghost old_self = *self;
        proof {
            lemma_fresh_fits(self.queue@, next, maze.rooms.width as int, maze.rooms.height as int, self.seen);
        }
        let n = self.queue.len();
        self.seen.set(next, true);
        self.parent.set(next, pos);
        self.order.set(next, n);
        self.queue.push(next);
        proof {
            lemma_set_at(old_self.seen, self.seen, next, true);
            lemma_set_at(old_self.parent, self.parent, next, pos);
            lemma_set_at(old_self.order, self.order, next, n);
            shape::lemma_push_fresh(old_self.queue@, next);
            let q = self.queue@;
            let oq = old_self.queue@;
            assert forall|i: int| 0 <= i < q.len() implies self.seen.at(#[trigger] q[i]) && self.order.at(q[i]) == i by {
                if i < oq.len() {
                    assert(q[i] == oq[i]);
                    assert(oq[i] != next);
                }
            }
            assert forall|i: int| 0 <= i < q.len() implies maze.rooms.inside(#[trigger] q[i]) by {
                if i < oq.len() {
                    assert(q[i] == oq[i]);
                }
            }
            assert forall|p: Pos| #![trigger self.seen.at(p)] self.seen.inside(p) && self.seen.at(p) implies q.contains(p) by {
                if p != next {
                    assert(old_self.seen.at(p));
                    assert(oq.contains(p));
                }
            }
            let pi = choose|pi: int| 0 <= pi < oq.len() && oq[pi] == pos;
            assert forall|i: int| 0 < i < q.len() implies {
                let p = #[trigger] q[i];
                &&& self.seen.at(self.parent.at(p))
                &&& self.parent.inside(self.parent.at(p))
                &&& self.order.at(self.parent.at(p)) < i
                &&& maze.connected_spec(self.parent.at(p), p)
            } by {
                if i < oq.len() {
                    assert(q[i] == oq[i]);
                    assert(oq[i] != next);
                    let pp = old_self.parent.at(oq[i]);
                    assert(oq.contains(pp));
                    let k = choose|k: int| 0 <= k < oq.len() && oq[k] == pp;
                    assert(pp != next);
                } else {
                    assert(q[i] == next);
                    assert(old_self.order.at(oq[pi]) == pi);
                    assert(pos != next);
                }
            }
        }
    }
}

impl<T> Maze<T> {
    /// Returns a path through open walls from `from` to `to`, visiting no
    /// room twice, or `None` if there is none.
    pub fn walk(&self, from: Pos, to: Pos) -> (r: Option<Vec<Pos>>)
        requires
            self.wf(),
        ensures
            match r {
                Some(path) => is_path(*self, path@, from, to) && path@.no_duplicates(),
                None => !reachable(*self, from, to),
            },
    {
        if !self.is_inside(from) || !self.is_inside(to) {
            proof {
                assert forall|path: Seq<Pos>| !#[trigger] is_path(*self, path, from, to) by {
                    if is_path(*self, path, from, to) {
                        assert(self.rooms.inside(path[0]));
                        assert(self.rooms.inside(path[path.len() - 1]));
                    }
                }
            }
            return None;
        }
        let mut search = Search::start(self, from);
        let mut head: usize = 0;
        while head < search.queue.len()
            invariant
                search.inv(*self, from),
                head <= search.queue@.len(),
                search.closed_below(*self, head as int),
            decreases self.rooms.width * self.rooms.height - head,
        {
            let pos = search.queue[head];
            let walls = self.walls(pos);
            proof {
                shape::lemma_walls_of_room(self.shape, pos);
                assert(search.queue@.contains(pos));
            }
            let mut k: usize = 0;
            while k < walls.len()
                invariant
                    search.inv(*self, from),
                    head < search.queue@.len(),
                    pos == search.queue@[head as int],
                    search.closed_below(*self, head as int),
                    walls@ == self.shape.walls_spec(pos),
                    forall|j: int| 0 <= j < walls@.len() ==> self.shape.has_wall(#[trigger] walls@[j]),
                    k <= walls@.len(),
                    forall|j: int| 0 <= j < k ==> {
                        let q = maze::pos_through(self.shape, pos, j);
                        self.rooms.inside(q) && self.open_spec(pos, (#[trigger] walls@[j]).index as int) ==> search.seen.at(q)
                    },
                decreases walls@.len() - k,
            {
                let wall = walls[k];
                proof {
                    shape::lemma_wall_facts(self.shape, wall.index as int);
                }
                let next = Pos { col: pos.col + wall.dir.0, row: pos.row + wall.dir.1 };
                if self.is_inside(next) && self.is_open((pos, wall)) && !*search.seen.get(next).unwrap() {
                    let ghost before = search;
                    proof {
                        assert(maze::pos_through(self.shape, pos, k as int) == next);
                        assert(self.connected_spec(pos, next));
                        assert(search.queue@.contains(pos));
                    }
                    search.visit(self, from, pos, next);
                    proof {
                        assert forall|i: int, q: Pos|
                            0 <= i < head && self.rooms.inside(q) && #[trigger] self.connected_spec(#[trigger] search.queue@[i], q) implies search.seen.at(q) by {
                            assert(search.queue@[i] == before.queue@[i]);
                            assert(before.seen.at(q));
                        }
                        assert forall|j: int| 0 <= j < k + 1 implies {
                            let q = maze::pos_through(self.shape, pos, j);
                            self.rooms.inside(q) && self.open_spec(pos, (#[trigger] walls@[j]).index as int) ==> search.seen.at(q)
                        } by {
                            let q = maze::pos_through(self.shape, pos, j);
                            if j < k && self.rooms.inside(q) && self.open_spec(pos, walls@[j].index as int) {
                                assert(before.seen.at(q));
                            }
                        }
                        assert(search.queue@[head as int] == before.queue@[head as int]);
                    }
                }
                k += 1;
            }
            proof {
                assert forall|i: int, q: Pos|
                    0 <= i < head + 1 && self.rooms.inside(q) && #[trigger] self.connected_spec(#[trigger] search.queue@[i], q) implies search.seen.at(q) by {
                    if i == head {
                        if q == pos {
                            assert(search.seen.at(search.queue@[head as int]));
                        } else {
                            let j = choose|j: int|
                                0 <= j < self.shape.walls_spec(pos).len() && pos.offset(
                                    (#[trigger] self.shape.walls_spec(pos)[j]).dir.0 as int,
                                    self.shape.walls_spec(pos)[j].dir.1 as int,
                                ) == q && self.open_spec(pos, self.shape.walls_spec(pos)[j].index as int);
                            assert(maze::pos_through(self.shape, pos, j) == q);
                            assert(walls@[j] == self.shape.walls_spec(pos)[j]);
                        }
                    }
                }
            }
            head += 1;
        }
        if !*search.seen.get(to).unwrap() {
            proof {
                assert forall|p: Pos, q: Pos|
                    self.rooms.inside(p) && search.seen.at(p) && self.rooms.inside(q) && #[trigger] self.connected_spec(p, q) implies #[trigger] search.seen.at(q) by {
                    assert(search.queue@.contains(p));
                    let i = choose|i: int| 0 <= i < search.queue@.len() && search.queue@[i] == p;
                    assert(self.connected_spec(search.queue@[i], q));
                }
                assert(search.seen.at(search.queue@[0]));
                assert forall|path: Seq<Pos>| !#[trigger] is_path(*self, path, from, to) by {
                    if is_path(*self, path, from, to) {
                        lemma_closed_set_holds_path(*self, search.seen, path, from, to);
                    }
                }
            }
            return None;
        }
        Some(search.path_to(self, from, to))
    }
}

impl Search {
    /// Follows the parents back from the seen room `to` and returns the path
    /// from `from` to it.
    pub fn path_to<T>(&self, maze: &Maze<T>, from: Pos, to: Pos) -> (r: Vec<Pos>)
        requires
            self.inv(*maze, from),
            maze.rooms.inside(to),
            self.seen.at(to),
        ensures
            is_path(*maze, r@, from, to),
            r@.no_duplicates(),
    {
        let mut back: Vec<Pos> = Vec::new();
        back.push(to);
        let mut cur = to;
        while cur != from
            invariant
                self.inv(*maze, from),
                self.queue@.contains(cur),
                back@.len() > 0,
                back@[0] == to,
                back@[back@.len() - 1] == cur,
                forall|i: int| 0 <= i < back@.len() ==> self.queue@.contains(#[trigger] back@[i]),
                forall|i: int, j: int|
                    0 <= i < j < back@.len() ==> self.order.at(#[trigger] back@[i]) > self.order.at(#[trigger] back@[j]),
                forall|i: int| 0 <= i < back@.len() - 1 ==> maze.connected_spec(#[trigger] back@[i + 1], back@[i]),
            decreases self.order.at(cur),
        {
            let ghost ci = choose|ci: int| 0 <= ci < self.queue@.len() && self.queue@[ci] == cur;
            proof {
                assert(self.order.at(self.queue@[ci]) == ci);
                assert(ci != 0);
                assert(self.queue@.contains(self.parent.at(cur)));
            }
            let p = *self.parent.get(cur).unwrap();
            let ghost old_back = back@;
            back.push(p);
            proof {
                assert forall|a: int, b: int| 0 <= a < b < back@.len() implies self.order.at(#[trigger] back@[a]) > self.order.at(#[trigger] back@[b]) by {
                    if b == old_back.len() {
                        assert(back@[a] == old_back[a]);
                        if a < old_back.len() - 1 {
                            assert(self.order.at(old_back[a]) > self.order.at(old_back[old_back.len() - 1]));
                        }
                    } else {
                        assert(back@[a] == old_back[a]);
                        assert(back@[b] == old_back[b]);
                    }
                }
                assert forall|a: int| 0 <= a < back@.len() - 1 implies maze.connected_spec(#[trigger] back@[a + 1], back@[a]) by {
                    if a < old_back.len() - 1 {
                        assert(back@[a] == old_back[a]);
                        assert(back@[a + 1] == old_back[a + 1]);
                    }
                }
                assert forall|a: int| 0 <= a < back@.len() implies self.queue@.contains(#[trigger] back@[a]) by {
                    if a < old_back.len() {
                        assert(back@[a] == old_back[a]);
                    }
                }
            }
            cur = p;
        }
        // Reverse it
        let n = back.len();
        let mut path: Vec<Pos> = Vec::new();
        let mut j: usize = 0;
        while j < n
            invariant
                n == back@.len(),
                j <= n,
                path@.len() == j,
                forall|a: int| 0 <= a < j ==> #[trigger] path@[a] == back@[n - 1 - a],
            decreases n - j,
        {
            path.push(back[n - 1 - j]);
            j += 1;
        }
        proof {
            assert forall|a: int| 0 <= a < path@.len() implies maze.rooms.inside(#[trigger] path@[a]) by {
                assert(self.queue@.contains(back@[n - 1 - a]));
            }
            assert forall|a: int| 0 <= a < path@.len() - 1 implies maze.connected_spec(#[trigger] path@[a], path@[a + 1]) by {
                assert(path@[a] == back@[n - 1 - a]);
                assert(path@[a + 1] == back@[(n - 1 - a) - 1]);
                assert(maze.connected_spec(back@[(n - 1 - a) - 1 + 1], back@[(n - 1 - a) - 1]));
            }
            assert forall|a: int, b: int| 0 <= a < path@.len() && 0 <= b < path@.len() && a != b implies path@[a] != path@[b] by {
                if a < b {
                    assert(self.order.at(back@[n - 1 - b]) > self.order.at(back@[n - 1 - a]));
                } else {
                    assert(self.order.at(back@[n - 1 - a]) > self.order.at(back@[n - 1 - b]));
                }
            }
        }
        path
    }
}

/// A matrix of how often each room was passed.
pub type HeatMap = Matrix<u32>;

/// The number of the paths in `walks` that pass the room at `p`.
pub open spec fn passes(walks: Seq<Option<Seq<Pos>>>, p: Pos) -> nat
    decreases walks.len(),
{
    if walks.len() == 0 {
        0
    } else {
        passes(walks.drop_last(), p) + match walks.last() {
            Some(path) => if path.contains(p) {
                1nat
            } else {
                0nat
            },
            None => 0nat,
        }
    }
}

/// No more paths pass a room than there are walks.
proof fn lemma_passes_bound(walks: Seq<Option<Seq<Pos>>>, p: Pos)
    ensures
        passes(walks, p) <= walks.len(),
    decreases walks.len(),
{
    if walks.len() > 0 {
        lemma_passes_bound(walks.drop_last(), p);
    }
}

/// Whether `walks` holds, for each pair of `positions`, a path without
/// repeated rooms from the first to the second, or `None` where there is no
/// path.
pub open spec fn walks_for<T>(maze: Maze<T>, positions: Seq<(Pos, Pos)>, walks: Seq<Option<Seq<Pos>>>) -> bool {
    &&& walks.len() == positions.len()
    &&& forall|i: int| 0 <= i < walks.len() ==> match #[trigger] walks[i] {
        Some(path) => is_path(maze, path, positions[i].0, positions[i].1) && path.no_duplicates(),
        None => !reachable(maze, positions[i].0, positions[i].1),
    }
}

/// Generates a heat map: for each pair of positions, walks from the first to
/// the second and counts every room on the way. Pairs without a path are
/// ignored.
pub fn heatmap<T>(maze: &Maze<T>, positions: &Vec<(Pos, Pos)>) -> (r: HeatMap)
    requires
        maze.wf(),
        positions@.len() <= u32::MAX,
    ensures
        r.wf(),
        r.width == maze.rooms.width,
        r.height == maze.rooms.height,
        exists|walks: Seq<Option<Seq<Pos>>>|
            #[trigger] walks_for(*maze, positions@, walks) && forall|p: Pos|
                #![trigger r.at(p)]
                r.inside(p) ==> r.at(p) == passes(walks, p),
{
    let mut result: HeatMap = Matrix::new(maze.width(), maze.height(), 0);
    let ghost mut walks: Seq<Option<Seq<Pos>>> = Seq::empty();
    proof {
        assert forall|p: Pos| #![trigger result.at(p)] result.inside(p) implies result.at(p) == passes(walks, p) by {
            matrix::lemma_offset_in_bounds(result.width as int, result.height as int, p.col as int, p.row as int);
        }
    }
    let mut i: usize = 0;
    while i < positions.len()
        invariant
            maze.wf(),
            positions@.len() <= u32::MAX,
            i <= positions@.len(),
            result.wf(),
            result.width == maze.rooms.width,
            result.height == maze.rooms.height,
            walks.len() == i,
            forall|j: int| 0 <= j < i ==> match #[trigger] walks[j] {
                Some(path) => is_path(*maze, path, positions@[j].0, positions@[j].1) && path.no_duplicates(),
                None => !reachable(*maze, positions@[j].0, positions@[j].1),
            },
            forall|p: Pos| #![trigger result.at(p)] result.inside(p) ==> result.at(p) == passes(walks, p),
        decreases positions@.len() - i,
    {
        let (from, to) = positions[i];
        match maze.walk(from, to) {
            Some(path) => {
                let mut k: usize = 0;
                while k < path.len()
                    invariant
                        maze.wf(),
                        i < positions@.len() <= u32::MAX,
                        walks.len() == i,
                        is_path(*maze, path@, from, to),
                        path@.no_duplicates(),
                        result.wf(),
                        result.width == maze.rooms.width,
                        result.height == maze.rooms.height,
                        k <= path@.len(),
                        forall|p: Pos| #![trigger result.at(p)] result.inside(p) ==> result.at(p) == passes(walks, p) + if path@.subrange(0, k as int).contains(p) {
                            1nat
                        } else {
                            0nat
                        },
                    decreases path@.len() - k,
                {
                    let pos = path[k];
                    proof {
                        assert(maze.rooms.inside(path@[k as int]));
                        lemma_passes_bound(walks, pos);
                        assert(!path@.subrange(0, k as int).contains(pos)) by {
                            if path@.subrange(0, k as int).contains(pos) {
                                let x = choose|x: int| 0 <= x < k && path@.subrange(0, k as int)[x] == pos;
                                assert(path@[x] == path@[k as int]);
                            }
                        }
                    }
                    let count = *result.get(pos).unwrap();
                    let ghost before = result;
                    result.set(pos, count + 1);
                    proof {
                        lemma_set_at(before, result, pos, (count + 1) as u32);
                        assert forall|p: Pos| #![trigger result.at(p)] result.inside(p) implies result.at(p) == passes(walks, p) + if path@.subrange(0, k + 1).contains(p) {
                            1nat
                        } else {
                            0nat
                        } by {
                            assert(path@.subrange(0, k + 1) == path@.subrange(0, k as int).push(pos));
                            shape::lemma_push_fresh(path@.subrange(0, k as int), pos);
                        }
                    }
                    k += 1;
                }
                proof {
                    let next = walks.push(Some(path@));
                    assert(next.drop_last() == walks);
                    assert(path@.subrange(0, path@.len() as int) == path@);
                    walks = next;
                }
            },
            None => {
                proof {
                    let next = walks.push(None);
                    assert(next.drop_last() == walks);
                    walks = next;
                }
            },
        }
        i += 1;
    }
    proof {
        assert(walks_for(*maze, positions@, walks));
    }
    result
}

/// Adds two heat maps of the same dimensions cell by cell, saturating at the
/// largest count.
pub fn add(a: &HeatMap, b: &HeatMap) -> (r: HeatMap)
    requires
        a.wf(),
        b.wf(),
        a.width == b.width,
        a.height == b.height,
    ensures
        r.wf(),
        r.width == a.width,
        r.height == a.height,
        forall|p: Pos|
            #![trigger r.at(p)]
            r.inside(p) ==> r.at(p) == if a.at(p) + b.at(p) > u32::MAX {
                u32::MAX as int
            } else {
                a.at(p) + b.at(p)
            },
{
    let n = a.data.len();
    let mut data: Vec<u32> = Vec::new();
    let mut k: usize = 0;
    while k < n
        invariant
            n == a.data@.len(),
            n == b.data@.len(),
            k <= n,
            data@.len() == k,
            forall|j: int| 0 <= j < k ==> #[trigger] data@[j] == if a.data@[j] + b.data@[j] > u32::MAX {
                u32::MAX as int
            } else {
                a.data@[j] + b.data@[j]
            },
        decreases n - k,
    {
        let x = a.data[k];
        let y = b.data[k];
        data.push(if x > u32::MAX - y { u32::MAX } else { x + y });
        k += 1;
    }
    let r = Matrix { width: a.width, height: a.height, data };
    proof {
        assert forall|p: Pos| #![trigger r.at(p)] r.inside(p) implies r.at(p) == if a.at(p) + b.at(p) > u32::MAX {
            u32::MAX as int
        } else {
            a.at(p) + b.at(p)
        } by {
            matrix::lemma_offset_in_bounds(r.width as int, r.height as int, p.col as int, p.row as int);
        }
    }
    r
}

/// How the walks of a heat map are chosen.
#[derive(Clone, Copy, Debug, PartialEq, Eq, Hash, Structural)]
pub enum HeatMapType {
    /// From the top of every column to its bottom.
    Vertical,
    /// From the left end of every row to its right end.
    Horizontal,
    /// From every room on the top row or the left column to the room
    /// mirrored through the centre of the maze.
    Full,
}

/// The room mirrored through the centre of a maze of the given dimensions.
pub open spec fn mirrored(width: int, height: int, p: Pos) -> Pos {
    Pos { col: (width - 1 - p.col) as isize, row: (height - 1 - p.row) as isize }
}

impl HeatMapType {
    /// Converts a name, `vertical`, `horizontal` or `full`, to a heat map
    /// type; any other string is handed back as the error.
    pub fn from_name(source: &str) -> (r: Result<HeatMapType, String>)
        ensures
            source@ == "vertical"@ ==> r == Ok::<HeatMapType, String>(HeatMapType::Vertical),
            source@ == "horizontal"@ ==> r == Ok::<HeatMapType, String>(HeatMapType::Horizontal),
            source@ == "full"@ ==> r == Ok::<HeatMapType, String>(HeatMapType::Full),
            r.is_err() <==> (source@ != "vertical"@ && source@ != "horizontal"@ && source@ != "full"@),
            r.is_err() ==> r.unwrap_err()@ == source@,
    {
        proof {
            reveal_strlit("vertical");
            reveal_strlit("horizontal");
            reveal_strlit("full");
            assert("vertical"@.len() == 8 && "horizontal"@.len() == 10 && "full"@.len() == 4);
        }
        if crate::initialize::str_eq(source, "vertical") {
            Ok(HeatMapType::Vertical)
        } else if crate::initialize::str_eq(source, "horizontal") {
            Ok(HeatMapType::Horizontal)
        } else if crate::initialize::str_eq(source, "full") {
            Ok(HeatMapType::Full)
        } else {
            Err(source.to_owned())
        }
    }

    /// Whether `r` lists the pairs of rooms that a heat map of this type
    /// walks between in a maze of the given dimensions.
    pub open spec fn pairs_for(self, width: int, height: int, r: Seq<(Pos, Pos)>) -> bool {
        &&& r.len() <= width + height
        &&& self == HeatMapType::Vertical ==> r.len() == width && forall|i: int|
            0 <= i < width ==> #[trigger] r[i] == (Pos { col: i as isize, row: 0 }, Pos { col: i as isize, row: (height - 1) as isize })
        &&& self == HeatMapType::Horizontal ==> r.len() == height && forall|i: int|
            0 <= i < height ==> #[trigger] r[i] == (Pos { col: 0, row: i as isize }, Pos { col: (width - 1) as isize, row: i as isize })
        &&& self == HeatMapType::Full ==> r.no_duplicates() && forall|pair: (Pos, Pos)|
            #[trigger] r.contains(pair) <==> (0 <= pair.0.col < width && 0 <= pair.0.row < height && (pair.0.col == 0
                || pair.0.row == 0) && pair.1 == mirrored(width, height, pair.0))
    }

    /// Returns the pairs of rooms to walk between in a maze of the given
    /// dimensions.
    pub fn positions(self, width: usize, height: usize) -> (r: Vec<(Pos, Pos)>)
        requires
            width <= matrix::MAX_SIDE,
            height <= matrix::MAX_SIDE,
        ensures
            self.pairs_for(width as int, height as int, r@),
    {
        let mut r: Vec<(Pos, Pos)> = Vec::new();
        match self {
            HeatMapType::Vertical => {
                let mut i: usize = 0;
                while i < width
                    invariant
                        width <= matrix::MAX_SIDE,
                        height <= matrix::MAX_SIDE,
                        i <= width,
                        r@.len() == i,
                        forall|j: int| 0 <= j < i ==> #[trigger] r@[j] == (Pos { col: j as isize, row: 0 }, Pos { col: j as isize, row: (height - 1) as isize }),
                    decreases width - i,
                {
                    r.push((Pos { col: i as isize, row: 0 }, Pos { col: i as isize, row: height as isize - 1 }));
                    i += 1;
                }
            },
            HeatMapType::Horizontal => {
                let mut i: usize = 0;
                while i < height
                    invariant
                        width <= matrix::MAX_SIDE,
                        height <= matrix::MAX_SIDE,
                        i <= height,
                        r@.len() == i,
                        forall|j: int| 0 <= j < i ==> #[trigger] r@[j] == (Pos { col: 0, row: j as isize }, Pos { col: (width - 1) as isize, row: j as isize }),
                    decreases height - i,
                {
                    r.push((Pos { col: 0, row: i as isize }, Pos { col: width as isize - 1, row: i as isize }));
                    i += 1;
                }
            },
            HeatMapType::Full => {
                // The top row, then the left column below it
                let mut col: usize = 0;
                while col < width && height > 0
                    invariant
                        width <= matrix::MAX_SIDE,
                        height <= matrix::MAX_SIDE,
                        col <= width,
                        r@.len() == col,
                        r@.no_duplicates(),
                        forall|pair: (Pos, Pos)|
                            #[trigger] r@.contains(pair) <==> (0 <= pair.0.col < col && pair.0.row == 0 && height > 0
                                && pair.1 == mirrored(width as int, height as int, pair.0)),
                    decreases width - col,
                {
                    let p = Pos { col: col as isize, row: 0 };
                    let pair = (p, Pos { col: width as isize - 1 - p.col, row: height as isize - 1 });
                    proof {
                        shape::lemma_push_fresh(r@, pair);
                    }
                    r.push(pair);
                    col += 1;
                }
                assert(forall|pair: (Pos, Pos)|
                    #[trigger] r@.contains(pair) <==> (0 <= pair.0.col < width && pair.0.row == 0 && height > 0
                        && pair.1 == mirrored(width as int, height as int, pair.0)));
                let mut row: usize = 1;
                while row < height && width > 0
                    invariant
                        width <= matrix::MAX_SIDE,
                        height <= matrix::MAX_SIDE,
                        1 <= row,
                        row <= if height == 0 {
                            1
                        } else {
                            height
                        },
                        r@.len() <= width + row - 1,
                        r@.no_duplicates(),
                        forall|pair: (Pos, Pos)|
                            #[trigger] r@.contains(pair) <==> ((0 <= pair.0.col < width && pair.0.row == 0 && height > 0) || (pair.0.col == 0 && 0 < pair.0.row < row && width > 0))
                                && pair.1 == mirrored(width as int, height as int, pair.0),
                    decreases height - row,
                {
                    let p = Pos { col: 0, row: row as isize };
                    let pair = (p, Pos { col: width as isize - 1, row: height as isize - 1 - p.row });
                    proof {
                        shape::lemma_push_fresh(r@, pair);
                    }
                    r.push(pair);
                    row += 1;
                }
                assert(row >= height || width == 0);
                assert(forall|pair: (Pos, Pos)|
                    #[trigger] r@.contains(pair) <==> (0 <= pair.0.col < width && 0 <= pair.0.row < height && (pair.0.col == 0
                        || pair.0.row == 0) && pair.1 == mirrored(width as int, height as int, pair.0)));
            },
        }
        r
    }

    /// Generates a heat map of this type for a maze.
    pub fn generate<T>(self, maze: &Maze<T>) -> (r: HeatMap)
        requires
            maze.wf(),
        ensures
            r.wf(),
            r.width == maze.rooms.width,
            r.height == maze.rooms.height,
            exists|positions: Seq<(Pos, Pos)>, walks: Seq<Option<Seq<Pos>>>|
                #[trigger] walks_for(*maze, positions, walks) && self.pairs_for(
                    maze.rooms.width as int,
                    maze.rooms.height as int,
                    positions,
                ) && forall|p: Pos| #![trigger r.at(p)] r.inside(p) ==> r.at(p) == passes(walks, p),
    {
        let positions = self.positions(maze.width(), maze.height());
        let r = heatmap(maze, &positions);
        proof {
            let walks = choose|walks: Seq<Option<Seq<Pos>>>|
                #[trigger] walks_for(*maze, positions@, walks) && forall|p: Pos|
                    #![trigger r.at(p)]
                    r.inside(p) ==> r.at(p) == passes(walks, p);
            assert(walks_for(*maze, positions@, walks));
        }
        r
    }
}

impl std::str::FromStr for HeatMapType {
    type Err = String;

    fn from_str(source: &str) -> Result<HeatMapType, String> {
        HeatMapType::from_name(source)
    }
}

/// Setting one cell of a matrix changes that cell alone.
proof fn lemma_set_at<A>(before: Matrix<A>, after: Matrix<A>, q: Pos, v: A)
    requires
        before.wf(),
        before.inside(q),
        after.width == before.width,
        after.height == before.height,
        after.data@ == before.data@.update(before.offset_of(q), v),
    ensures
        after.wf(),
        forall|p: Pos|
            #![trigger after.at(p)]
            after.inside(p) ==> after.at(p) == if p == q {
                v
            } else {
                before.at(p)
            },
{
    lemma_at_after_set(before, q, q);
    assert forall|p: Pos| #![trigger after.at(p)] after.inside(p) implies after.at(p) == if p == q {
        v
    } else {
        before.at(p)
    } by {
        lemma_at_after_set(before, p, q);
        lemma_at_after_set(before, q, q);
    }
}

/// After setting one cell, the other cells keep their values.
proof fn lemma_at_after_set<A>(m: Matrix<A>, p: Pos, q: Pos)
    requires
        m.wf(),
        m.inside(p),
        m.inside(q),
    ensures
        0 <= m.offset_of(p) < m.data@.len(),
        p != q ==> m.offset_of(p) != m.offset_of(q),
{
    matrix::lemma_offset_in_bounds(m.width as int, m.height as int, p.col as int, p.row as int);
    if p != q && m.offset_of(p) == m.offset_of(q) {
        maze::lemma_offset_injective(m.width as int, p, q);
    }
}

/// A queue without duplicates of seen rooms, with one more room that is not
/// seen, still fits in the matrix.
proof fn lemma_fresh_fits(queue: Seq<Pos>, next: Pos, width: int, height: int, seen: Matrix<bool>)
    requires
        seen.wf(),
        seen.width == width,
        seen.height == height,
        seen.inside(next),
        !seen.at(next),
        queue.no_duplicates(),
        forall|i: int| 0 <= i < queue.len() ==> seen.inside(#[trigger] queue[i]) && seen.at(queue[i]),
    ensures
        queue.len() + 1 <= width * height,
        !queue.contains(next),
{
    assert(!queue.contains(next)) by {
        if queue.contains(next) {
            let i = choose|i: int| 0 <= i < queue.len() && queue[i] == next;
            assert(seen.at(queue[i]));
        }
    }
    shape::lemma_push_fresh(queue, next);
    let all = queue.push(next);
    assert forall|i: int| 0 <= i < all.len() implies seen.inside(#[trigger] all[i]) by {
        if i < queue.len() {
            assert(all[i] == queue[i]);
        }
    }
    let offsets = all.map(|i: int, p: Pos| seen.offset_of(p));
    assert forall|a: int, b: int| 0 <= a < offsets.len() && 0 <= b < offsets.len() && a != b implies offsets[a] != offsets[b] by {
        if offsets[a] == offsets[b] {
            maze::lemma_offset_injective(width, all[a], all[b]);
        }
    }
    assert(offsets.no_duplicates());
    offsets.unique_seq_to_set();
    assert forall|o: int| offsets.to_set().contains(o) implies vstd::set_lib::set_int_range(0, width * height).contains(o) by {
        let i = choose|i: int| 0 <= i < offsets.len() && offsets[i] == o;
        matrix::lemma_offset_in_bounds(width, height, all[i].col as int, all[i].row as int);
    }
    matrix::lemma_cells_fit(width, height);
    vstd::set_lib::lemma_int_range(0, width * height);
    vstd::set_lib::lemma_len_subset(offsets.to_set(), vstd::set_lib::set_int_range(0, width * height));
}

} // verus!
