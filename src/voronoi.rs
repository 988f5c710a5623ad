//! The multiplicatively weighted Voronoi initialiser.
//!
//! The maze is partitioned into regions, one per generation method: every
//! room belongs to the site whose distance to the room's centre, divided by
//! the site's weight, is smallest. Each method generates the passages of its
//! own region, and then one random wall is opened between every pair of
//! neighbouring regions.

use vstd::prelude::*;

use crate::initialize::{clear, Method, Randomizer};
use crate::matrix::{self, Matrix, Pos};
use crate::maze::{self, Maze};
use crate::physical;
use crate::shape::{self, Shape, ViewBox, WallPos};
use vstd::string::StringSliceAdditionalSpecFns;

verus! {

/// The smallest weight of a site, in thousandths.
pub const MIN_WEIGHT: usize = 500;

/// The bound above every weight of a site, in thousandths.
pub const MAX_WEIGHT: usize = 1500;

/// The bound on the coordinates of sites.
pub const SITE_LIMIT: i64 = 0x400_0000;

/// The centre of a region: a physical position and a weight, in thousandths.
#[derive(Clone, Copy, Debug, PartialEq, Eq, Hash, Structural)]
pub struct Site {
    /// The horizontal coordinate.
    pub x: i64,
    /// The vertical coordinate.
    pub y: i64,
    /// The weight, in thousandths.
    pub weight: u64,
}

impl Site {
    /// The site lies within `SITE_LIMIT` of the origin and has a weight of
    /// `MIN_WEIGHT..MAX_WEIGHT`.
    pub open spec fn valid(self) -> bool {
        &&& -SITE_LIMIT <= self.x <= SITE_LIMIT
        &&& -SITE_LIMIT <= self.y <= SITE_LIMIT
        &&& MIN_WEIGHT <= self.weight < MAX_WEIGHT
    }
}

/// The squared distance between `c` and `s`, in a unit of the shape's
/// lattice that makes it an integer; only comparisons between distances of
/// one shape matter.
pub open spec fn dist2(shape: Shape, c: physical::Pos, s: Site) -> int {
    let dx = c.x - s.x;
    let dy = c.y - s.y;
    match shape {
        Shape::Quad => dx * dx + dy * dy,
        _ => 3 * (dx * dx) + dy * dy,
    }
}

/// Whether the weighted distance from `c` to `a` is at most that to `b`:
/// `|c - a| / a.weight <= |c - b| / b.weight`.
pub open spec fn nearer_eq(shape: Shape, c: physical::Pos, a: Site, b: Site) -> bool {
    dist2(shape, c, a) * (b.weight * b.weight) <= dist2(shape, c, b) * (a.weight * a.weight)
}

/// Whether `r` is the first index of the sites with the smallest weighted
/// distance to `c`.
pub open spec fn is_nearest(shape: Shape, sites: Seq<Site>, c: physical::Pos, r: int) -> bool {
    &&& 0 <= r < sites.len()
    &&& forall|j: int| 0 <= j < sites.len() ==> nearer_eq(shape, c, sites[r], #[trigger] sites[j])
    &&& forall|j: int| 0 <= j < r ==> !nearer_eq(shape, c, #[trigger] sites[j], sites[r])
}

/// Whether the centre of a room within the side bound lies within reach of
/// the distance arithmetic.
pub open spec fn center_bounded(c: physical::Pos) -> bool {
    -0x20_0000 <= c.x <= 0x20_0000 && -0x20_0000 <= c.y <= 0x20_0000
}

/// The squared lattice distance of a bounded centre to a valid site, and its
/// product with a squared weight, fit in 80 bits.
proof fn lemma_dist2_bounds(shape: Shape, c: physical::Pos, s: Site, w: int)
    requires
        center_bounded(c),
        s.valid(),
        0 <= w < MAX_WEIGHT,
    ensures
        0 <= dist2(shape, c, s) < 0x100_0000_0000_0000,
        0 <= dist2(shape, c, s) * (w * w) < 0x1_0000_0000_0000_0000_0000,
{
    let dx = c.x - s.x;
    let dy = c.y - s.y;
    assert(0 <= dx * dx <= 0x20_0000_0000_0000) by (nonlinear_arith)
        requires
            -0x420_0000 <= dx <= 0x420_0000,
    ;
    assert(0 <= dy * dy <= 0x20_0000_0000_0000) by (nonlinear_arith)
        requires
            -0x420_0000 <= dy <= 0x420_0000,
    ;
    let d = dist2(shape, c, s);
    assert(0 <= w * w < 0x40_0000) by (nonlinear_arith)
        requires
            0 <= w < MAX_WEIGHT,
    ;
    assert(0 <= d * (w * w) < 0x1_0000_0000_0000_0000_0000) by (nonlinear_arith)
        requires
            0 <= d < 0x100_0000_0000_0000,
            0 <= w * w < 0x40_0000,
    ;
}

/// Returns whether the weighted distance from `c` to `a` is at most that to
/// `b`.
pub fn is_nearer_eq(shape: Shape, c: physical::Pos, a: Site, b: Site) -> (r: bool)
    requires
        center_bounded(c),
        a.valid(),
        b.valid(),
    ensures
        r == nearer_eq(shape, c, a, b),
{
    proof {
        lemma_dist2_bounds(shape, c, a, b.weight as int);
        lemma_dist2_bounds(shape, c, b, a.weight as int);
    }
    let da = squared_distance(shape, c, a);
    let db = squared_distance(shape, c, b);
    let wa = a.weight as u128;
    let wb = b.weight as u128;
    proof {
        assert(wa * wa < 0x40_0000 && wb * wb < 0x40_0000) by (nonlinear_arith)
            requires
                wa < MAX_WEIGHT,
                wb < MAX_WEIGHT,
        ;
    }
    da * (wb * wb) <= db * (wa * wa)
}

/// Returns the squared lattice distance between `c` and `s`.
fn squared_distance(shape: Shape, c: physical::Pos, s: Site) -> (r: u128)
    requires
        center_bounded(c),
        s.valid(),
    ensures
        r == dist2(shape, c, s),
{
    proof {
        lemma_dist2_bounds(shape, c, s, 0);
    }
    let dx = (c.x - s.x) as i128;
    let dy = (c.y - s.y) as i128;
    proof {
        assert(0 <= dx * dx <= 0x20_0000_0000_0000) by (nonlinear_arith)
            requires
                -0x420_0000 <= dx <= 0x420_0000,
        ;
        assert(0 <= dy * dy <= 0x20_0000_0000_0000) by (nonlinear_arith)
            requires
                -0x420_0000 <= dy <= 0x420_0000,
        ;
    }
    let d = match shape {
        Shape::Quad => dx * dx + dy * dy,
        _ => 3 * (dx * dx) + dy * dy,
    };
    d as u128
}

/// Weighted distances are ordered: a site strictly nearer than one that is
/// at most as far as a third is strictly nearer than the third.
proof fn lemma_nearer_trans(shape: Shape, c: physical::Pos, a: Site, b: Site, i: Site)
    requires
        a.valid(),
        b.valid(),
        i.valid(),
        !nearer_eq(shape, c, b, a),
        nearer_eq(shape, c, b, i),
    ensures
        nearer_eq(shape, c, a, i),
        !nearer_eq(shape, c, i, a),
{
    let da = dist2(shape, c, a);
    let db = dist2(shape, c, b);
    let di = dist2(shape, c, i);
    let wa = a.weight * a.weight;
    let wb = b.weight * b.weight;
    let wi = i.weight * i.weight;
    assert(wa > 0 && wb > 0 && wi > 0) by (nonlinear_arith)
        requires
            a.weight > 0,
            b.weight > 0,
            i.weight > 0,
            wa == a.weight * a.weight,
            wb == b.weight * b.weight,
            wi == i.weight * i.weight,
    ;
    assert(da * wi < di * wa) by (nonlinear_arith)
        requires
            da * wb < db * wa,
            db * wi <= di * wb,
            wa > 0,
            wb > 0,
            wi > 0,
    ;
}

/// Builds the region matrix: every room gets the first index among the
/// sites with the smallest weighted distance to its centre.
pub fn matrix<T>(maze: &Maze<T>, sites: &Vec<Site>) -> (r: Matrix<usize>)
    requires
        maze.wf(),
        sites@.len() > 0,
        forall|j: int| 0 <= j < sites@.len() ==> (#[trigger] sites@[j]).valid(),
    ensures
        r.wf(),
        r.width == maze.rooms.width,
        r.height == maze.rooms.height,
        forall|p: Pos|
            #![trigger r.at(p)]
            r.inside(p) ==> is_nearest(maze.shape, sites@, maze.shape.center_spec(p), r.at(p) as int),
{
    let width = maze.width();
    let height = maze.height();
    let mut m: Matrix<usize> = Matrix::new(width, height, 0);
    let mut row: usize = 0;
    while row < height
        invariant
            maze.wf(),
            width == maze.rooms.width,
            height == maze.rooms.height,
            sites@.len() > 0,
            forall|j: int| 0 <= j < sites@.len() ==> (#[trigger] sites@[j]).valid(),
            m.wf(),
            m.width == width,
            m.height == height,
            row <= height,
            forall|p: Pos|
                #![trigger m.at(p)]
                m.inside(p) && p.row < row ==> is_nearest(maze.shape, sites@, maze.shape.center_spec(p), m.at(p) as int),
        decreases height - row,
    {
        let mut col: usize = 0;
        while col < width
            invariant
                maze.wf(),
                width == maze.rooms.width,
                height == maze.rooms.height,
                sites@.len() > 0,
                forall|j: int| 0 <= j < sites@.len() ==> (#[trigger] sites@[j]).valid(),
                m.wf(),
                m.width == width,
                m.height == height,
                row < height,
                col <= width,
                forall|p: Pos|
                    #![trigger m.at(p)]
                    m.inside(p) && (p.row < row || (p.row == row && p.col < col)) ==> is_nearest(maze.shape, sites@, maze.shape.center_spec(p), m.at(p) as int),
            decreases width - col,
        {
            let pos = Pos { col: col as isize, row: row as isize };
            let best = nearest(maze.shape, maze.center(pos), sites);
            let ghost before = m;
            m.set(pos, best);
            proof {
                matrix::lemma_offset_in_bounds(width as int, height as int, col as int, row as int);
                assert forall|p: Pos| #![trigger m.at(p)] m.inside(p) && (p.row < row || (p.row == row && p.col < col + 1)) implies is_nearest(maze.shape, sites@, maze.shape.center_spec(p), m.at(p) as int) by {
                    matrix::lemma_offset_in_bounds(width as int, height as int, p.col as int, p.row as int);
                    if p == pos {
                        assert(m.at(p) == best);
                    } else {
                        if m.offset_of(p) == m.offset_of(pos) {
                            maze::lemma_offset_injective(width as int, p, pos);
                        }
                        assert(m.offset_of(p) != m.offset_of(pos));
                        assert(m.data@[m.offset_of(p)] == before.data@[m.offset_of(p)]);
                        assert(m.at(p) == before.at(p));
                    }
                }
            }
            col += 1;
        }
        row += 1;
    }
    m
}

/// Returns the first index among the sites with the smallest weighted
/// distance to `c`.
pub fn nearest(shape: Shape, c: physical::Pos, sites: &Vec<Site>) -> (r: usize)
    requires
        center_bounded(c),
        sites@.len() > 0,
        forall|j: int| 0 <= j < sites@.len() ==> (#[trigger] sites@[j]).valid(),
    ensures
        is_nearest(shape, sites@, c, r as int),
{
    let mut best: usize = 0;
    let mut j: usize = 1;
    while j < sites.len()
        invariant
            center_bounded(c),
            forall|k: int| 0 <= k < sites@.len() ==> (#[trigger] sites@[k]).valid(),
            1 <= j <= sites@.len(),
            best < j,
            forall|k: int| 0 <= k < j ==> nearer_eq(shape, c, sites@[best as int], #[trigger] sites@[k]),
            forall|k: int| 0 <= k < best ==> !nearer_eq(shape, c, #[trigger] sites@[k], sites@[best as int]),
        decreases sites@.len() - j,
    {
        if !is_nearer_eq(shape, c, sites[best], sites[j]) {
            proof {
                assert forall|k: int| 0 <= k < j + 1 implies nearer_eq(shape, c, sites@[j as int], #[trigger] sites@[k]) && (k < j ==> !nearer_eq(shape, c, sites@[k], sites@[j as int])) by {
                    if k < j {
                        lemma_nearer_trans(shape, c, sites@[j as int], sites@[best as int], sites@[k]);
                    } else {
                        lemma_dist2_bounds(shape, c, sites@[k], 0);
                    }
                }
            }
            best = j;
        }
        j += 1;
    }
    best
}

/// Whether `wall_pos` is a wall of a room of region `a` whose back is a
/// room of region `b`.
pub open spec fn is_boundary<T>(maze: Maze<T>, m: Matrix<usize>, a: int, b: int, wall_pos: WallPos) -> bool {
    let back = maze.shape.back_spec(wall_pos);
    &&& m.inside(wall_pos.0)
    &&& maze.shape.walls_spec(wall_pos.0).contains(wall_pos.1)
    &&& m.at(wall_pos.0) == a
    &&& m.inside(back.0)
    &&& m.at(back.0) == b
}

/// Whether `walls` holds exactly the walls from region `a` to region `b`.
pub open spec fn lists_boundary<T>(maze: Maze<T>, m: Matrix<usize>, walls: Seq<WallPos>, a: int, b: int) -> bool {
    forall|wall_pos: WallPos| walls.contains(wall_pos) <==> is_boundary(maze, m, a, b, wall_pos)
}

/// Returns the walls from rooms of region `a` to rooms of region `b`.
pub fn boundary_walls<T>(maze: &Maze<T>, m: &Matrix<usize>, a: usize, b: usize) -> (r: Vec<WallPos>)
    requires
        maze.wf(),
        m.wf(),
        m.width == maze.rooms.width,
        m.height == maze.rooms.height,
    ensures
        r@.no_duplicates(),
        forall|wall_pos: WallPos| r@.contains(wall_pos) <==> is_boundary(*maze, *m, a as int, b as int, wall_pos),
{
    let mut r: Vec<WallPos> = Vec::new();
    let width = m.width;
    let height = m.height;
    let mut row: usize = 0;
    while row < height
        invariant
            maze.wf(),
            m.wf(),
            m.width == width,
            m.height == height,
            m.width == maze.rooms.width,
            m.height == maze.rooms.height,
            row <= height,
            r@.no_duplicates(),
            forall|wall_pos: WallPos| r@.contains(wall_pos) <==> is_boundary(*maze, *m, a as int, b as int, wall_pos) && wall_pos.0.row < row,
        decreases height - row,
    {
        let mut col: usize = 0;
        while col < width
            invariant
                maze.wf(),
                m.wf(),
                m.width == width,
                m.height == height,
                m.width == maze.rooms.width,
                m.height == maze.rooms.height,
                row < height,
                col <= width,
                r@.no_duplicates(),
                forall|wall_pos: WallPos| r@.contains(wall_pos) <==> is_boundary(*maze, *m, a as int, b as int, wall_pos) && (wall_pos.0.row < row || (wall_pos.0.row == row && wall_pos.0.col < col)),
            decreases width - col,
        {
            let pos = Pos { col: col as isize, row: row as isize };
            let walls = maze.walls(pos);
            proof {
                shape::lemma_walls_of_room(maze.shape, pos);
            }
            let here = *m.get(pos).unwrap();
            let mut k: usize = 0;
            while k < walls.len()
                invariant
                    maze.wf(),
                    m.wf(),
                    m.width == width,
                    m.height == height,
                    m.width == maze.rooms.width,
                    m.height == maze.rooms.height,
                    row < height,
                    col < width,
                    pos == (Pos { col: col as isize, row: row as isize }),
                    here == m.at(pos),
                    walls@ == maze.shape.walls_spec(pos),
                    forall|j: int| 0 <= j < walls@.len() ==> maze.shape.has_wall(#[trigger] walls@[j]),
                    k <= walls.len(),
                    r@.no_duplicates(),
                    forall|wall_pos: WallPos| r@.contains(wall_pos) <==> is_boundary(*maze, *m, a as int, b as int, wall_pos) && (wall_pos.0.row < row || (wall_pos.0.row == row && wall_pos.0.col < col) || (wall_pos.0 == pos && exists|j: int| 0 <= j < k && walls@[j] == wall_pos.1)),
                decreases walls.len() - k,
            {
                let wall = walls[k];
                let back = maze.back((pos, wall));
                let take = here == a && match m.get(back.0) {
                    Some(v) => *v == b,
                    None => false,
                };
                let ghost old_r = r@;
                if take {
                    proof {
                        shape::lemma_directions_unique(maze.shape, pos);
                        if old_r.contains((pos, wall)) {
                            let j = choose|j: int| 0 <= j < k && walls@[j] == wall;
                            assert(walls@[j].dir == walls@[k as int].dir);
                        }
                        shape::lemma_push_fresh(old_r, (pos, wall));
                    }
                    r.push((pos, wall));
                }
                proof {
                    assert forall|wall_pos: WallPos| r@.contains(wall_pos) <==> is_boundary(*maze, *m, a as int, b as int, wall_pos) && (wall_pos.0.row < row || (wall_pos.0.row == row && wall_pos.0.col < col) || (wall_pos.0 == pos && exists|j: int| 0 <= j < k + 1 && walls@[j] == wall_pos.1)) by {
                        if wall_pos == (pos, wall) {
                            assert(walls@[k as int] == wall_pos.1);
                            assert(maze.shape.walls_spec(pos).contains(wall));
                        }
                        if take {
                            assert(r@ == old_r.push((pos, wall)));
                            assert(r@[old_r.len() as int] == (pos, wall));
                            if old_r.contains(wall_pos) {
                                let j = choose|j: int| 0 <= j < old_r.len() && old_r[j] == wall_pos;
                                assert(r@[j] == wall_pos);
                            }
                            if r@.contains(wall_pos) {
                                let j = choose|j: int| 0 <= j < r@.len() && r@[j] == wall_pos;
                                if j < old_r.len() {
                                    assert(old_r[j] == wall_pos);
                                }
                            }
                        }
                        if wall_pos.0 == pos && exists|j: int| 0 <= j < k + 1 && walls@[j] == wall_pos.1 {
                            let j = choose|j: int| 0 <= j < k + 1 && walls@[j] == wall_pos.1;
                            if j == k {
                                assert(wall_pos == (pos, wall));
                            }
                        }
                    }
                }
                k += 1;
            }
            proof {
                assert forall|wall_pos: WallPos| r@.contains(wall_pos) <==> is_boundary(*maze, *m, a as int, b as int, wall_pos) && (wall_pos.0.row < row || (wall_pos.0.row == row && wall_pos.0.col < col + 1)) by {
                    if is_boundary(*maze, *m, a as int, b as int, wall_pos) && wall_pos.0 == pos {
                        let j = choose|j: int| 0 <= j < walls@.len() && walls@[j] == wall_pos.1;
                    }
                }
            }
            col += 1;
        }
        row += 1;
    }
    r
}

/// Returns the walls between every pair of neighbouring regions among the
/// first `n`: exactly one non-empty list per pair `a < b` of regions that
/// share a wall, holding each wall from the rooms of `a` to those of `b`
/// once. The lists come in increasing order of their pairs.
pub fn edges<T>(maze: &Maze<T>, m: &Matrix<usize>, n: usize) -> (r: Vec<Vec<WallPos>>)
    requires
        maze.wf(),
        m.wf(),
        m.width == maze.rooms.width,
        m.height == maze.rooms.height,
    ensures
        forall|i: int|
            0 <= i < r@.len() ==> (#[trigger] r@[i])@.len() > 0 && r@[i]@.no_duplicates() && exists|a: int, b: int|
                0 <= a < b < n && #[trigger] lists_boundary(*maze, *m, r@[i]@, a, b),
        forall|i: int, j: int, a: int, b: int|
            0 <= i < j < r@.len() && #[trigger] lists_boundary(*maze, *m, r@[i]@, a, b) ==> !#[trigger] lists_boundary(*maze, *m, r@[j]@, a, b),
        forall|i: int, j: int, wall_pos: WallPos|
            0 <= i < r@.len() && 0 <= j < r@.len() && i != j && #[trigger] r@[i]@.contains(wall_pos) ==> !#[trigger] r@[j]@.contains(wall_pos),
        forall|a: int, b: int, wall_pos: WallPos|
            0 <= a < b < n && #[trigger] is_boundary(*maze, *m, a, b, wall_pos) ==> exists|i: int|
                0 <= i < r@.len() && (#[trigger] r@[i])@.contains(wall_pos),
{
    let mut r: Vec<Vec<WallPos>> = Vec::new();
    let mut a: usize = 0;
    while a < n
        invariant
            maze.wf(),
            m.wf(),
            m.width == maze.rooms.width,
            m.height == maze.rooms.height,
            a <= n,
            forall|i: int|
                0 <= i < r@.len() ==> (#[trigger] r@[i])@.len() > 0 && r@[i]@.no_duplicates() && exists|x: int, y: int|
                    0 <= x < y < n && x < a && #[trigger] lists_boundary(*maze, *m, r@[i]@, x, y),
            forall|i: int, j: int, wall_pos: WallPos|
                0 <= i < j < r@.len() && #[trigger] r@[i]@.contains(wall_pos) ==> !#[trigger] r@[j]@.contains(wall_pos),
            forall|x: int, y: int, wall_pos: WallPos|
                0 <= x < a && x < y < n && #[trigger] is_boundary(*maze, *m, x, y, wall_pos) ==> exists|i: int|
                    0 <= i < r@.len() && (#[trigger] r@[i])@.contains(wall_pos),
        decreases n - a,
    {
        let mut b: usize = a + 1;
        while b < n
            invariant
                maze.wf(),
                m.wf(),
                m.width == maze.rooms.width,
                m.height == maze.rooms.height,
                a < n,
                a < b <= n,
                forall|i: int|
                    0 <= i < r@.len() ==> (#[trigger] r@[i])@.len() > 0 && r@[i]@.no_duplicates() && exists|x: int, y: int|
                        0 <= x < y < n && (x < a || (x == a && y < b)) && #[trigger] lists_boundary(*maze, *m, r@[i]@, x, y),
                forall|i: int, j: int, wall_pos: WallPos|
                    0 <= i < j < r@.len() && #[trigger] r@[i]@.contains(wall_pos) ==> !#[trigger] r@[j]@.contains(wall_pos),
                forall|x: int, y: int, wall_pos: WallPos|
                    (0 <= x < a && x < y < n || x == a && a < y < b) && #[trigger] is_boundary(*maze, *m, x, y, wall_pos) ==> exists|i: int|
                        0 <= i < r@.len() && (#[trigger] r@[i])@.contains(wall_pos),
            decreases n - b,
        {
            let walls = boundary_walls(maze, m, a, b);
            let ghost old_r = r@;
            if walls.len() > 0 {
                r.push(walls);
                proof {
                    assert(r@[old_r.len() as int] == walls);
                    assert forall|i: int| 0 <= i < r@.len() implies (#[trigger] r@[i])@.len() > 0 && r@[i]@.no_duplicates() && exists|x: int, y: int|
                        0 <= x < y < n && (x < a || (x == a && y < b + 1)) && #[trigger] lists_boundary(*maze, *m, r@[i]@, x, y) by {
                        if i == old_r.len() {
                            assert(lists_boundary(*maze, *m, r@[i]@, a as int, b as int));
                        } else {
                            assert(r@[i] == old_r[i]);
                            let (x, y) = choose|x: int, y: int|
                                0 <= x < y < n && (x < a || (x == a && y < b)) && #[trigger] lists_boundary(*maze, *m, old_r[i]@, x, y);
                            assert(lists_boundary(*maze, *m, r@[i]@, x, y));
                        }
                    }
                    assert forall|i: int, j: int, wall_pos: WallPos|
                        0 <= i < j < r@.len() && #[trigger] r@[i]@.contains(wall_pos) implies !#[trigger] r@[j]@.contains(wall_pos) by {
                        assert(r@[i] == old_r[i]);
                        if j == old_r.len() {
                            let (x, y) = choose|x: int, y: int|
                                0 <= x < y < n && (x < a || (x == a && y < b)) && #[trigger] lists_boundary(*maze, *m, old_r[i]@, x, y);
                            assert(is_boundary(*maze, *m, x, y, wall_pos));
                            if walls@.contains(wall_pos) {
                                assert(is_boundary(*maze, *m, a as int, b as int, wall_pos));
                            }
                        } else {
                            assert(r@[j] == old_r[j]);
                        }
                    }
                }
            } else {
                proof {
                    assert forall|i: int| 0 <= i < r@.len() implies (#[trigger] r@[i])@.len() > 0 && r@[i]@.no_duplicates() && exists|x: int, y: int|
                        0 <= x < y < n && (x < a || (x == a && y < b + 1)) && #[trigger] lists_boundary(*maze, *m, r@[i]@, x, y) by {
                        let (x, y) = choose|x: int, y: int|
                            0 <= x < y < n && (x < a || (x == a && y < b)) && #[trigger] lists_boundary(*maze, *m, r@[i]@, x, y);
                    }
                }
            }
            proof {
                assert forall|x: int, y: int, wall_pos: WallPos|
                    (0 <= x < a && x < y < n || x == a && a < y < b + 1) && #[trigger] is_boundary(*maze, *m, x, y, wall_pos) implies exists|i: int|
                        0 <= i < r@.len() && (#[trigger] r@[i])@.contains(wall_pos) by {
                    if x == a && y == b {
                        assert(walls@.contains(wall_pos));
                        assert(r@[old_r.len() as int]@.contains(wall_pos));
                    } else {
                        let i = choose|i: int| 0 <= i < old_r.len() && (#[trigger] old_r[i])@.contains(wall_pos);
                        assert(r@[i] == old_r[i]);
                    }
                }
            }
            b += 1;
        }
        proof {
            assert forall|i: int| 0 <= i < r@.len() implies (#[trigger] r@[i])@.len() > 0 && r@[i]@.no_duplicates() && exists|x: int, y: int|
                0 <= x < y < n && x < a + 1 && #[trigger] lists_boundary(*maze, *m, r@[i]@, x, y) by {
                let (x, y) = choose|x: int, y: int|
                    0 <= x < y < n && (x < a || (x == a && y < b)) && #[trigger] lists_boundary(*maze, *m, r@[i]@, x, y);
            }
        }
        a += 1;
    }
    proof {
        assert forall|i: int, j: int, wall_pos: WallPos|
            0 <= i < r@.len() && 0 <= j < r@.len() && i != j && #[trigger] r@[i]@.contains(wall_pos) implies !#[trigger] r@[j]@.contains(wall_pos) by {
            if j < i && r@[j]@.contains(wall_pos) {
                assert(!r@[i]@.contains(wall_pos));
            }
        }
        assert forall|i: int, j: int, x: int, y: int|
            0 <= i < j < r@.len() && #[trigger] lists_boundary(*maze, *m, r@[i]@, x, y) implies !#[trigger] lists_boundary(*maze, *m, r@[j]@, x, y) by {
            let wall_pos = r@[i]@[0];
            assert(r@[i]@.contains(wall_pos));
            if lists_boundary(*maze, *m, r@[j]@, x, y) {
                assert(is_boundary(*maze, *m, x, y, wall_pos));
                assert(r@[j]@.contains(wall_pos));
            }
        }
    }
    r
}

/// Whether `(x, y)` lies in the view box of a maze of `cols` columns and
/// `rows` rows: between the smallest and largest coordinates of the corners
/// of its first and last columns, or at the origin for a maze without rooms.
pub open spec fn in_view(shape: Shape, cols: int, rows: int, x: int, y: int) -> bool {
    if cols == 0 || rows == 0 {
        x == 0 && y == 0
    } else {
        &&& exists|cx: int, cy: int| #[trigger] shape::is_edge_corner(shape, cols, rows, cx, cy) && cx <= x
        &&& exists|cx: int, cy: int| #[trigger] shape::is_edge_corner(shape, cols, rows, cx, cy) && cx >= x
        &&& exists|cx: int, cy: int| #[trigger] shape::is_edge_corner(shape, cols, rows, cx, cy) && cy <= y
        &&& exists|cx: int, cy: int| #[trigger] shape::is_edge_corner(shape, cols, rows, cx, cy) && cy >= y
    }
}

/// Draws `n` sites: each a uniformly random position in the view box of the
/// maze and a uniformly random weight of `MIN_WEIGHT..MAX_WEIGHT`.
pub fn sample_sites<T, R: Randomizer>(maze: &Maze<T>, rng: &mut R, n: usize) -> (r: Vec<Site>)
    requires
        maze.wf(),
    ensures
        r@.len() == n,
        forall|j: int|
            0 <= j < r@.len() ==> (#[trigger] r@[j]).valid() && in_view(
                maze.shape,
                maze.rooms.width as int,
                maze.rooms.height as int,
                r@[j].x as int,
                r@[j].y as int,
            ),
{
    let viewbox = maze.shape.viewbox(maze.width(), maze.height());
    let mut r: Vec<Site> = Vec::new();
    let mut i: usize = 0;
    while i < n
        invariant
            i <= n,
            r@.len() == i,
            forall|j: int|
                0 <= j < r@.len() ==> (#[trigger] r@[j]).valid() && viewbox.holds(r@[j].x as int, r@[j].y as int),
            0 <= viewbox.width < physical::PHYS_LIMIT,
            0 <= viewbox.height < physical::PHYS_LIMIT,
            -0x400_0000 <= viewbox.corner.x,
            -0x400_0000 <= viewbox.corner.y,
            viewbox.corner.x + viewbox.width <= 0x400_0000,
            viewbox.corner.y + viewbox.height <= 0x400_0000,
            maze.rooms.width == 0 || maze.rooms.height == 0 ==> viewbox == (ViewBox {
                corner: physical::Pos { x: 0, y: 0 },
                width: 0,
                height: 0,
            }),
            maze.rooms.width > 0 && maze.rooms.height > 0 ==> {
                let cols = maze.rooms.width as int;
                let rows = maze.rooms.height as int;
                &&& exists|y: int| #[trigger] shape::is_edge_corner(maze.shape, cols, rows, viewbox.corner.x as int, y)
                &&& exists|y: int| #[trigger] shape::is_edge_corner(maze.shape, cols, rows, viewbox.corner.x + viewbox.width, y)
                &&& exists|x: int| #[trigger] shape::is_edge_corner(maze.shape, cols, rows, x, viewbox.corner.y as int)
                &&& exists|x: int| #[trigger] shape::is_edge_corner(maze.shape, cols, rows, x, viewbox.corner.y + viewbox.height)
            },
        decreases n - i,
    {
        let dx = rng.range(0, viewbox.width as usize + 1);
        let dy = rng.range(0, viewbox.height as usize + 1);
        let weight = rng.range(MIN_WEIGHT, MAX_WEIGHT);
        let site = Site {
            x: viewbox.corner.x + dx as i64,
            y: viewbox.corner.y + dy as i64,
            weight: weight as u64,
        };
        r.push(site);
        i += 1;
    }
    proof {
        let cols = maze.rooms.width as int;
        let rows = maze.rooms.height as int;
        assert forall|j: int| 0 <= j < r@.len() implies in_view(maze.shape, cols, rows, r@[j].x as int, r@[j].y as int) by {
            if cols > 0 && rows > 0 {
                let y0 = choose|y: int| #[trigger] shape::is_edge_corner(maze.shape, cols, rows, viewbox.corner.x as int, y);
                assert(shape::is_edge_corner(maze.shape, cols, rows, viewbox.corner.x as int, y0));
                let y1 = choose|y: int| #[trigger] shape::is_edge_corner(maze.shape, cols, rows, viewbox.corner.x + viewbox.width, y);
                assert(shape::is_edge_corner(maze.shape, cols, rows, viewbox.corner.x + viewbox.width, y1));
                let x0 = choose|x: int| #[trigger] shape::is_edge_corner(maze.shape, cols, rows, x, viewbox.corner.y as int);
                assert(shape::is_edge_corner(maze.shape, cols, rows, x0, viewbox.corner.y as int));
                let x1 = choose|x: int| #[trigger] shape::is_edge_corner(maze.shape, cols, rows, x, viewbox.corner.y + viewbox.height);
                assert(shape::is_edge_corner(maze.shape, cols, rows, x1, viewbox.corner.y + viewbox.height));
            }
        }
    }
    r
}

/// Returns the filter that selects the rooms of region `i` that `filter`
/// selects.
pub fn region_filter(filter: &Matrix<bool>, m: &Matrix<usize>, i: usize) -> (r: Matrix<bool>)
    requires
        filter.wf(),
        m.wf(),
        m.width == filter.width,
        m.height == filter.height,
    ensures
        r.wf(),
        r.width == filter.width,
        r.height == filter.height,
        forall|p: Pos| #![trigger r.at(p)] r.inside(p) ==> r.at(p) == (filter.at(p) && m.at(p) == i),
{
    let n = filter.data.len();
    let mut data: Vec<bool> = Vec::new();
    let mut k: usize = 0;
    while k < n
        invariant
            n == filter.data@.len(),
            n == m.data@.len(),
            k <= n,
            data@.len() == k,
            forall|j: int| 0 <= j < k ==> #[trigger] data@[j] == (filter.data@[j] && m.data@[j] == i),
        decreases n - k,
    {
        data.push(filter.data[k] && m.data[k] == i);
        k += 1;
    }
    let r = Matrix { width: filter.width, height: filter.height, data };
    proof {
        assert forall|p: Pos| #![trigger r.at(p)] r.inside(p) implies r.at(p) == (filter.at(p) && m.at(p) == i) by {
            matrix::lemma_offset_in_bounds(r.width as int, r.height as int, p.col as int, p.row as int);
        }
    }
    r
}

/// Whether the wall with index `i` of the room at `p` lies between two rooms
/// of the same region that `filter` selects.
pub open spec fn region_inner<T>(maze: Maze<T>, filter: Matrix<bool>, m: Matrix<usize>, p: Pos, i: int) -> bool {
    clear::selected(filter, p) && exists|k: int|
        0 <= k < maze.shape.walls_spec(p).len() && (#[trigger] maze.shape.walls_spec(p)[k]).index == i
            && clear::selected(filter, maze.shape.back_spec((p, maze.shape.walls_spec(p)[k])).0)
            && m.at(p) == m.at(maze.shape.back_spec((p, maze.shape.walls_spec(p)[k])).0)
}

/// Whether the wall with index `i` of the room at `p` lies between rooms of
/// two different regions.
pub open spec fn region_border<T>(maze: Maze<T>, m: Matrix<usize>, p: Pos, i: int) -> bool {
    exists|k: int|
        0 <= k < maze.shape.walls_spec(p).len() && (#[trigger] maze.shape.walls_spec(p)[k]).index == i
            && m.inside(p) && m.inside(maze.shape.back_spec((p, maze.shape.walls_spec(p)[k])).0)
            && m.at(p) != m.at(maze.shape.back_spec((p, maze.shape.walls_spec(p)[k])).0)
}

/// Whether the wall with index `i` of the room at `p` is open once every
/// method has generated its region.
pub open spec fn generated<T>(maze: Maze<T>, filter: Matrix<bool>, m: Matrix<usize>, p: Pos, i: int) -> bool {
    maze.open_spec(p, i) || region_inner(maze, filter, m, p, i)
}

/// A list of generation methods, each applied to its own region.
pub struct Methods {
    /// The methods.
    pub methods: Vec<Method>,
}

impl Methods {
    /// The methods that run: those given, or clearing alone if none is.
    pub open spec fn effective(&self) -> Seq<Method> {
        if self.methods@.len() == 0 {
            seq![Method::Clear]
        } else {
            self.methods@
        }
    }

    /// What initialising `before` with `filter` yields: the region matrix
    /// `m` is the weighted Voronoi diagram of some valid sites in the view
    /// box, one per method; every method generated its own region; and then
    /// one wall was opened, on both sides, between every pair of neighbouring
    /// regions, and no wall elsewhere. A consistent maze stays consistent.
    pub open spec fn initialized<T>(
        &self,
        before: Maze<T>,
        filter: Matrix<bool>,
        m: Matrix<usize>,
        after: Maze<T>,
    ) -> bool {
        let n = self.effective().len();
        &&& m.wf()
        &&& m.width == before.rooms.width
        &&& m.height == before.rooms.height
        &&& exists|sites: Seq<Site>|
            #![trigger sites.len()]
            sites.len() == n && (forall|j: int|
                0 <= j < n ==> (#[trigger] sites[j]).valid() && in_view(
                    before.shape,
                    before.rooms.width as int,
                    before.rooms.height as int,
                    sites[j].x as int,
                    sites[j].y as int,
                )) && (
            forall|p: Pos|
                #![trigger m.at(p)]
                m.inside(p) ==> is_nearest(before.shape, sites, before.shape.center_spec(p), m.at(p) as int))
        &&& after.wf()
        &&& after.shape == before.shape
        &&& after.rooms.width == before.rooms.width
        &&& after.rooms.height == before.rooms.height
        &&& forall|p: Pos|
            #![trigger after.rooms.at(p)]
            after.rooms.inside(p) ==> after.rooms.at(p).data == before.rooms.at(p).data
                && after.rooms.at(p).visited == before.rooms.at(p).visited
        &&& forall|p: Pos, i: int|
            0 <= i < 32 ==> (generated(before, filter, m, p, i) ==> #[trigger] after.open_spec(p, i))
                && (after.open_spec(p, i) ==> generated(before, filter, m, p, i) || region_border(before, m, p, i))
        &&& forall|a: int, b: int, wall_pos: WallPos|
            0 <= a < b < n && #[trigger] is_boundary(before, m, a, b, wall_pos) ==> exists|other: WallPos|
                is_boundary(before, m, a, b, other) && #[trigger] after.is_open_spec(other)
                    && after.is_open_spec(before.shape.back_spec(other))
        &&& forall|a: int, b: int, w1: WallPos, w2: WallPos|
            0 <= a < b < n && #[trigger] is_boundary(before, m, a, b, w1) && #[trigger] is_boundary(before, m, a, b, w2)
                && after.is_open_spec(w1) && after.is_open_spec(w2) && !before.is_open_spec(w1)
                && !before.is_open_spec(w2) ==> w1 == w2
        &&& before.consistent() ==> after.consistent()
    }

    /// Creates an initialiser for a list of methods.
    pub fn new(methods: Vec<Method>) -> (r: Methods)
        ensures
            r.methods@ == methods@,
    {
        Methods { methods }
    }

    /// Initialises a maze: draws one site per method, builds the weighted
    /// Voronoi diagram of the rooms, lets every method generate the rooms of
    /// its region that `filter` selects, and opens one random wall between
    /// every pair of neighbouring regions. Returns the region matrix, whose
    /// values are indices into the methods, and the maze.
    pub fn initialize<T, R: Randomizer>(self, maze: Maze<T>, rng: &mut R, filter: &Matrix<bool>) -> (r: (Matrix<usize>, Maze<T>))
        requires
            maze.wf(),
            filter.wf(),
            filter.width == maze.rooms.width,
            filter.height == maze.rooms.height,
        ensures
            self.initialized(maze, *filter, r.0, r.1),
    {
        let ghost spec_self = self;
        let methods = if self.methods.len() == 0 {
            vec![Method::Clear]
        } else {
            self.methods
        };
        assert(methods@ == spec_self.effective());
        let n = methods.len();
        let sites = sample_sites(&maze, rng, n);
        let m = matrix(&maze, &sites);
        let edges = edges(&maze, &m, n);
        let ghost before = maze;
        let mut maze = maze;
        let mut i: usize = 0;
        while i < n
            invariant
                n == methods@.len(),
                i <= n,
                before.wf(),
                filter.wf(),
                filter.width == before.rooms.width,
                filter.height == before.rooms.height,
                m.wf(),
                m.width == before.rooms.width,
                m.height == before.rooms.height,
                maze.wf(),
                maze.shape == before.shape,
                maze.rooms.width == before.rooms.width,
                maze.rooms.height == before.rooms.height,
                forall|p: Pos|
                    #![trigger maze.rooms.at(p)]
                    maze.rooms.inside(p) ==> maze.rooms.at(p).data == before.rooms.at(p).data
                        && maze.rooms.at(p).visited == before.rooms.at(p).visited,
                forall|p: Pos, j: int|
                    0 <= j < 32 ==> #[trigger] maze.open_spec(p, j) == (before.open_spec(p, j) || (region_inner(before, *filter, m, p, j) && m.at(p) < i)),
                before.consistent() ==> maze.consistent(),
            decreases n - i,
        {
            let f = region_filter(filter, &m, i);
            let ghost mid = maze;
            maze = methods[i].apply(maze, rng, &f);
            proof {
                if before.consistent() {
                    clear::lemma_cleared_consistent(mid, f, maze);
                }
                assert forall|p: Pos, j: int| 0 <= j < 32 implies #[trigger] maze.open_spec(p, j) == (before.open_spec(p, j) || (region_inner(before, *filter, m, p, j) && m.at(p) < i + 1)) by {
                    if clear::inner_wall(mid, f, p, j) {
                        let k = choose|k: int| 0 <= k < mid.shape.walls_spec(p).len() && (#[trigger] mid.shape.walls_spec(p)[k]).index == j && clear::selected(f, mid.shape.back_spec((p, mid.shape.walls_spec(p)[k])).0);
                        assert(region_inner(before, *filter, m, p, j));
                    }
                    if region_inner(before, *filter, m, p, j) && m.at(p) == i {
                        let k = choose|k: int| 0 <= k < before.shape.walls_spec(p).len() && (#[trigger] before.shape.walls_spec(p)[k]).index == j
                            && clear::selected(*filter, before.shape.back_spec((p, before.shape.walls_spec(p)[k])).0)
                            && m.at(p) == m.at(before.shape.back_spec((p, before.shape.walls_spec(p)[k])).0);
                        assert(clear::inner_wall(mid, f, p, j));
                    }
                }
            }
            i += 1;
        }
        proof {
            assert forall|p: Pos| #![trigger m.at(p)] m.inside(p) implies m.at(p) < n by {
                assert(is_nearest(before.shape, sites@, before.shape.center_spec(p), m.at(p) as int));
            }
        }
        proof {
            assert forall|x: int| 0 <= x < edges@.len() implies (#[trigger] edges@[x])@.len() > 0 && has_pair(before, m, edges@[x]@, n as int) by {
                let (a, b) = choose|a: int, b: int| 0 <= a < b < n && #[trigger] lists_boundary(before, m, edges@[x]@, a, b);
                assert(lists_boundary(before, m, edges@[x]@, a, b));
            }
        }
        let ghost mut chosen: Seq<WallPos> = Seq::empty();
        let mut e: usize = 0;
        while e < edges.len()
            invariant
                e <= edges@.len(),
                chosen.len() == e,
                before.wf(),
                m.wf(),
                m.width == before.rooms.width,
                m.height == before.rooms.height,
                maze.wf(),
                maze.shape == before.shape,
                maze.rooms.width == before.rooms.width,
                maze.rooms.height == before.rooms.height,
                forall|p: Pos|
                    #![trigger maze.rooms.at(p)]
                    maze.rooms.inside(p) ==> maze.rooms.at(p).data == before.rooms.at(p).data
                        && maze.rooms.at(p).visited == before.rooms.at(p).visited,
                forall|p: Pos, j: int|
                    0 <= j < 32 ==> (generated(before, *filter, m, p, j) ==> #[trigger] maze.open_spec(p, j))
                        && (maze.open_spec(p, j) ==> generated(before, *filter, m, p, j) || (region_border(before, m, p, j)
                        && exists|x: int| 0 <= x < e && #[trigger] opened_at(before.shape, chosen[x], p, j))),
                forall|x: int|
                    0 <= x < edges@.len() ==> (#[trigger] edges@[x])@.len() > 0 && has_pair(before, m, edges@[x]@, n as int),
                forall|x: int| 0 <= x < e ==> (#[trigger] edges@[x])@.contains(chosen[x]) && maze.is_open_spec(chosen[x])
                    && maze.is_open_spec(before.shape.back_spec(chosen[x])) && chosen[x].1.index < 32
                    && before.shape.back_spec(chosen[x]).1.index < 32,
                before.consistent() ==> maze.consistent(),
            decreases edges@.len() - e,
        {
            let walls = &edges[e];
            let k = rng.range(0, walls.len());
            let wall_pos = walls[k];
            let ghost mid = maze;
            proof {
                assert(has_pair(before, m, edges@[e as int]@, n as int));
                let (a, b) = choose|a: int, b: int| 0 <= a < b < n && #[trigger] lists_boundary(before, m, edges@[e as int]@, a, b);
                assert(walls@.contains(wall_pos));
                assert(is_boundary(before, m, a, b, wall_pos));
                shape::lemma_walls_of_room(before.shape, wall_pos.0);
            }
            maze.open(wall_pos);
            proof {
                assert(has_pair(before, m, edges@[e as int]@, n as int));
                let (a, b) = choose|a: int, b: int| 0 <= a < b < n && #[trigger] lists_boundary(before, m, edges@[e as int]@, a, b);
                assert(walls@.contains(wall_pos));
                assert(is_boundary(before, m, a, b, wall_pos));
                let back = before.shape.back_spec(wall_pos);
                shape::lemma_walls_of_room(before.shape, wall_pos.0);
                shape::lemma_back_in_room(before.shape, wall_pos);
                shape::lemma_back_back(before.shape, wall_pos);
                let kw = choose|kw: int| 0 <= kw < before.shape.walls_spec(wall_pos.0).len() && before.shape.walls_spec(wall_pos.0)[kw] == wall_pos.1;
                let kb = choose|kb: int| 0 <= kb < before.shape.walls_spec(back.0).len() && before.shape.walls_spec(back.0)[kb] == back.1;
                assert(region_border(before, m, wall_pos.0, wall_pos.1.index as int));
                assert(region_border(before, m, back.0, back.1.index as int));
                if before.consistent() {
                    maze::lemma_set_open_consistent(mid, maze, wall_pos, true);
                }
                let old_chosen = chosen;
                chosen = chosen.push(wall_pos);
                assert(chosen[e as int] == wall_pos);
                shape::lemma_wall_facts(before.shape, wall_pos.1.index as int);
                shape::lemma_wall_facts(before.shape, back.1.index as int);
                assert forall|x: int| 0 <= x < e + 1 implies (#[trigger] edges@[x])@.contains(chosen[x]) && maze.is_open_spec(chosen[x])
                    && maze.is_open_spec(before.shape.back_spec(chosen[x])) && chosen[x].1.index < 32
                    && before.shape.back_spec(chosen[x]).1.index < 32 by {
                    if x < e {
                        assert(chosen[x] == old_chosen[x]);
                    }
                }
                assert forall|p: Pos, j: int| 0 <= j < 32 implies (generated(before, *filter, m, p, j) ==> #[trigger] maze.open_spec(p, j))
                    && (maze.open_spec(p, j) ==> generated(before, *filter, m, p, j) || (region_border(before, m, p, j)
                    && exists|x: int| 0 <= x < e + 1 && #[trigger] opened_at(before.shape, chosen[x], p, j))) by {
                    if maze.open_spec(p, j) && !generated(before, *filter, m, p, j) {
                        if mid.open_spec(p, j) {
                            let x = choose|x: int| 0 <= x < e && #[trigger] opened_at(before.shape, old_chosen[x], p, j);
                            assert(chosen[x] == old_chosen[x]);
                            assert(opened_at(before.shape, chosen[x], p, j));
                        } else {
                            assert(opened_at(before.shape, chosen[e as int], p, j));
                        }
                    }
                }
            }
            e += 1;
        }
        proof {
            assert forall|a: int, b: int, wall_pos: WallPos|
                0 <= a < b < n && #[trigger] is_boundary(before, m, a, b, wall_pos) implies exists|other: WallPos|
                    is_boundary(before, m, a, b, other) && #[trigger] maze.is_open_spec(other)
                        && maze.is_open_spec(before.shape.back_spec(other)) by {
                let x = choose|x: int| 0 <= x < edges@.len() && (#[trigger] edges@[x])@.contains(wall_pos);
                assert(has_pair(before, m, edges@[x]@, n as int));
                let (a2, b2) = choose|a2: int, b2: int| 0 <= a2 < b2 < n && #[trigger] lists_boundary(before, m, edges@[x]@, a2, b2);
                assert(is_boundary(before, m, a2, b2, wall_pos));
                assert(edges@[x]@.contains(chosen[x]));
                assert(is_boundary(before, m, a2, b2, chosen[x]));
            }
            let lists = edges@.map_values(|v: Vec<WallPos>| v@);
            assert(lists.len() == edges@.len());
            assert forall|x: int| 0 <= x < lists.len() implies lists[x] == (#[trigger] edges@[x])@ by {}
            assert forall|x: int| 0 <= x < lists.len() implies #[trigger] has_pair(before, m, lists[x], n as int) by {
                assert(lists[x] == edges@[x]@);
                assert(has_pair(before, m, edges@[x]@, n as int));
            }
            assert forall|x: int| 0 <= x < lists.len() implies (#[trigger] lists[x]).contains(chosen[x]) by {
                assert(lists[x] == edges@[x]@);
                assert(edges@[x]@.contains(chosen[x]));
            }
            assert forall|i: int, j: int, a: int, b: int|
                0 <= i < j < lists.len() && #[trigger] lists_boundary(before, m, lists[i], a, b) implies !#[trigger] lists_boundary(before, m, lists[j], a, b) by {
                assert(lists[i] == edges@[i]@);
                assert(lists[j] == edges@[j]@);
            }
            assert forall|p: Pos, j: int| 0 <= j < 32 && maze.open_spec(p, j) implies generated(before, *filter, m, p, j) || (region_border(before, m, p, j)
                && exists|x: int| 0 <= x < lists.len() && #[trigger] opened_at(before.shape, chosen[x], p, j)) by {
                if !generated(before, *filter, m, p, j) {
                    let x = choose|x: int| 0 <= x < e && #[trigger] opened_at(before.shape, chosen[x], p, j);
                    assert(x < lists.len());
                    assert(opened_at(before.shape, chosen[x], p, j));
                }
            }
            lemma_one_connector(before, *filter, m, maze, lists, chosen, n as int);
            assert(sites@.len() == n);
        }
        (m, maze)
    }
}

/// Whether `walls` lists exactly the walls from region `a` to region `b`
/// for some pair `a < b` of the first `n` regions.
pub open spec fn has_pair<T>(maze: Maze<T>, m: Matrix<usize>, walls: Seq<WallPos>, n: int) -> bool {
    exists|a: int, b: int| 0 <= a < b < n && #[trigger] lists_boundary(maze, m, walls, a, b)
}

/// Whether opening `wall_pos` opens the wall with index `j` of the room at
/// `p`: it is that wall or its back.
pub open spec fn opened_at(shape: Shape, wall_pos: WallPos, p: Pos, j: int) -> bool {
    (p == wall_pos.0 && j == wall_pos.1.index) || (p == shape.back_spec(wall_pos).0 && j == shape.back_spec(
        wall_pos,
    ).1.index)
}

/// The wall of the list whose pair is `(a, b)` that was opened is the only
/// boundary wall from `a` to `b` that was closed before and is open after.
proof fn lemma_connector_of<T>(
    before: Maze<T>,
    filter: Matrix<bool>,
    m: Matrix<usize>,
    after: Maze<T>,
    lists: Seq<Seq<WallPos>>,
    chosen: Seq<WallPos>,
    n: int,
    a: int,
    b: int,
    w: WallPos,
) -> (x: int)
    requires
        m.wf(),
        m.width == before.rooms.width,
        m.height == before.rooms.height,
        chosen.len() == lists.len(),
        forall|x: int| 0 <= x < lists.len() ==> (#[trigger] lists[x]).contains(chosen[x]),
        forall|x: int| 0 <= x < lists.len() ==> #[trigger] has_pair(before, m, lists[x], n),
        forall|p: Pos, j: int|
            0 <= j < 32 ==> (after.open_spec(p, j) ==> generated(before, filter, m, p, j) || (region_border(before, m, p, j)
                && exists|x: int| 0 <= x < lists.len() && #[trigger] opened_at(before.shape, chosen[x], p, j))),
        0 <= a < b < n,
        is_boundary(before, m, a, b, w),
        after.is_open_spec(w),
        !before.is_open_spec(w),
    ensures
        0 <= x < lists.len(),
        chosen[x] == w,
        lists_boundary(before, m, lists[x], a, b),
{
    let shape = before.shape;
    shape::lemma_walls_of_room(shape, w.0);
    shape::lemma_wall_facts(shape, w.1.index as int);
    shape::lemma_back_back(shape, w);
    let back = shape.back_spec(w);
    if region_inner(before, filter, m, w.0, w.1.index as int) {
        let k = choose|k: int|
            0 <= k < shape.walls_spec(w.0).len() && (#[trigger] shape.walls_spec(w.0)[k]).index == w.1.index
                && clear::selected(filter, shape.back_spec((w.0, shape.walls_spec(w.0)[k])).0)
                && m.at(w.0) == m.at(shape.back_spec((w.0, shape.walls_spec(w.0)[k])).0);
        assert(shape.walls_spec(w.0)[k] == w.1);
    }
    let x = choose|x: int| 0 <= x < lists.len() && #[trigger] opened_at(shape, chosen[x], w.0, w.1.index as int);
    let c = chosen[x];
    assert(has_pair(before, m, lists[x], n));
    let (xa, xb) = choose|xa: int, xb: int| 0 <= xa < xb < n && #[trigger] lists_boundary(before, m, lists[x], xa, xb);
    assert(lists[x].contains(c));
    assert(is_boundary(before, m, xa, xb, c));
    shape::lemma_walls_of_room(shape, c.0);
    shape::lemma_wall_facts(shape, c.1.index as int);
    shape::lemma_back_back(shape, c);
    shape::lemma_back_in_room(shape, c);
    let cb = shape.back_spec(c);
    shape::lemma_walls_of_room(shape, cb.0);
    shape::lemma_wall_facts(shape, cb.1.index as int);
    if w.0 == c.0 && w.1.index == c.1.index {
        assert(w.1 == c.1);
    } else {
        assert(w.1 == cb.1);
        assert(w == cb);
        assert(shape.back_spec(w) == c);
        assert(false);
    }
    assert(w == c);
    assert(xa == a && xb == b);
    x
}

/// Between every pair of regions at most one wall that was closed before
/// initialisation is open after it.
proof fn lemma_one_connector<T>(
    before: Maze<T>,
    filter: Matrix<bool>,
    m: Matrix<usize>,
    after: Maze<T>,
    lists: Seq<Seq<WallPos>>,
    chosen: Seq<WallPos>,
    n: int,
)
    requires
        m.wf(),
        m.width == before.rooms.width,
        m.height == before.rooms.height,
        chosen.len() == lists.len(),
        forall|x: int| 0 <= x < lists.len() ==> (#[trigger] lists[x]).contains(chosen[x]),
        forall|x: int| 0 <= x < lists.len() ==> #[trigger] has_pair(before, m, lists[x], n),
        forall|i: int, j: int, a: int, b: int|
            0 <= i < j < lists.len() && #[trigger] lists_boundary(before, m, lists[i], a, b) ==> !#[trigger] lists_boundary(before, m, lists[j], a, b),
        forall|p: Pos, j: int|
            0 <= j < 32 ==> (after.open_spec(p, j) ==> generated(before, filter, m, p, j) || (region_border(before, m, p, j)
                && exists|x: int| 0 <= x < lists.len() && #[trigger] opened_at(before.shape, chosen[x], p, j))),
    ensures
        forall|a: int, b: int, w1: WallPos, w2: WallPos|
            0 <= a < b < n && #[trigger] is_boundary(before, m, a, b, w1) && #[trigger] is_boundary(before, m, a, b, w2)
                && after.is_open_spec(w1) && after.is_open_spec(w2) && !before.is_open_spec(w1)
                && !before.is_open_spec(w2) ==> w1 == w2,
{
    assert forall|a: int, b: int, w1: WallPos, w2: WallPos|
        0 <= a < b < n && #[trigger] is_boundary(before, m, a, b, w1) && #[trigger] is_boundary(before, m, a, b, w2)
            && after.is_open_spec(w1) && after.is_open_spec(w2) && !before.is_open_spec(w1)
            && !before.is_open_spec(w2) implies w1 == w2 by {
        let x1 = lemma_connector_of(before, filter, m, after, lists, chosen, n, a, b, w1);
        let x2 = lemma_connector_of(before, filter, m, after, lists, chosen, n, a, b, w2);
        if x1 < x2 {
            assert(!lists_boundary(before, m, lists[x2], a, b));
        } else if x2 < x1 {
            assert(!lists_boundary(before, m, lists[x1], a, b));
        }
    }
}

/// The bytes of the name of a method followed by a comma, `clear,`.
pub open spec fn method_pattern() -> Seq<u8> {
    seq![99u8, 108u8, 101u8, 97u8, 114u8, 44u8]
}

/// Whether `bytes` is a list of `n` method names separated by commas.
pub open spec fn is_method_list(bytes: Seq<u8>, n: int) -> bool {
    &&& n >= 1
    &&& bytes.len() == 6 * n - 1
    &&& forall|i: int| 0 <= i < bytes.len() ==> #[trigger] bytes[i] == method_pattern()[i % 6]
}

impl Methods {
    /// Parses a comma separated list of method names; a string that is not
    /// such a list is handed back as the error.
    pub fn from_names(source: &str) -> (r: Result<Methods, String>)
        ensures
            match r {
                Ok(methods) => is_method_list(source.spec_bytes(), methods.methods@.len() as int)
                    && forall|i: int|
                    0 <= i < methods.methods@.len() ==> #[trigger] methods.methods@[i] == Method::Clear,
                Err(e) => e@ == source@ && forall|n: int| !#[trigger] is_method_list(source.spec_bytes(), n),
            },
    {
        let bytes = source.as_bytes();
        let pattern: [u8; 6] = [99, 108, 101, 97, 114, 44];
        let mut i: usize = 0;
        while i < bytes.len()
            invariant
                bytes@ == source.spec_bytes(),
                pattern@ == method_pattern(),
                i <= bytes@.len(),
                forall|j: int| 0 <= j < i ==> #[trigger] bytes@[j] == method_pattern()[j % 6],
            decreases bytes@.len() - i,
        {
            if bytes[i] != pattern[i % 6] {
                proof {
                    assert forall|n: int| !#[trigger] is_method_list(source.spec_bytes(), n) by {
                        if is_method_list(source.spec_bytes(), n) {
                            assert(bytes@[i as int] == method_pattern()[i as int % 6]);
                        }
                    }
                }
                return Err(source.to_owned());
            }
            i += 1;
        }
        if bytes.len() % 6 != 5 {
            proof {
                assert forall|n: int| !#[trigger] is_method_list(source.spec_bytes(), n) by {
                    if is_method_list(source.spec_bytes(), n) {
                        assert((6 * n - 1) % 6 == 5) by {
                            vstd::arithmetic::div_mod::lemma_fundamental_div_mod_converse_mod(6 * n - 1, 6, n - 1, 5);
                        }
                    }
                }
            }
            return Err(source.to_owned());
        }
        let count = bytes.len() / 6 + 1;
        let mut methods: Vec<Method> = Vec::new();
        let mut k: usize = 0;
        while k < count
            invariant
                k <= count,
                methods@.len() == k,
                forall|j: int| 0 <= j < k ==> #[trigger] methods@[j] == Method::Clear,
            decreases count - k,
        {
            methods.push(Method::Clear);
            k += 1;
        }
        proof {
            vstd::arithmetic::div_mod::lemma_fundamental_div_mod(bytes@.len() as int, 6);
        }
        Ok(Methods { methods })
    }
}

impl std::str::FromStr for Methods {
    type Err = String;

    fn from_str(source: &str) -> Result<Methods, String> {
        Methods::from_names(source)
    }
}

impl Default for Methods {
    /// A single method: clearing.
    fn default() -> (r: Methods)
        ensures
            r.methods@ == seq![Method::Clear],
    {
        Methods { methods: vec![Method::Clear] }
    }
}

/// Initialising with a single method puts every room in one region and opens
/// exactly the walls that the method opens when run alone on the whole maze.
pub proof fn lemma_single_method<T>(
    methods: Methods,
    before: Maze<T>,
    filter: Matrix<bool>,
    m: Matrix<usize>,
    after: Maze<T>,
    alone: Maze<T>,
)
    requires
        methods.effective().len() == 1,
        before.wf(),
        filter.width == before.rooms.width,
        filter.height == before.rooms.height,
        methods.initialized(before, filter, m, after),
        methods.effective()[0].applied(before, filter, alone),
    ensures
        forall|p: Pos| #![trigger m.at(p)] m.inside(p) ==> m.at(p) == 0,
        forall|p: Pos, i: int| 0 <= i < 32 ==> #[trigger] after.open_spec(p, i) == alone.open_spec(p, i),
{
    let sites = choose|sites: Seq<Site>|
        #![trigger sites.len()]
        sites.len() == 1 && (forall|j: int| 0 <= j < 1 ==> (#[trigger] sites[j]).valid()) && (
        forall|p: Pos|
            #![trigger m.at(p)]
            m.inside(p) ==> is_nearest(before.shape, sites, before.shape.center_spec(p), m.at(p) as int));
    assert forall|p: Pos| #![trigger m.at(p)] m.inside(p) implies m.at(p) == 0 by {
        assert(is_nearest(before.shape, sites, before.shape.center_spec(p), m.at(p) as int));
    }
    assert forall|p: Pos, i: int| 0 <= i < 32 implies #[trigger] after.open_spec(p, i) == alone.open_spec(p, i) by {
        if region_border(before, m, p, i) {
            let k = choose|k: int|
                0 <= k < before.shape.walls_spec(p).len() && (#[trigger] before.shape.walls_spec(p)[k]).index == i
                    && m.inside(p) && m.inside(before.shape.back_spec((p, before.shape.walls_spec(p)[k])).0)
                    && m.at(p) != m.at(before.shape.back_spec((p, before.shape.walls_spec(p)[k])).0);
            assert(m.at(p) == 0);
            assert(m.at(before.shape.back_spec((p, before.shape.walls_spec(p)[k])).0) == 0);
        }
        if clear::inner_wall(before, filter, p, i) {
            let k = choose|k: int|
                0 <= k < before.shape.walls_spec(p).len() && (#[trigger] before.shape.walls_spec(p)[k]).index == i
                    && clear::selected(filter, before.shape.back_spec((p, before.shape.walls_spec(p)[k])).0);
            assert(m.at(p) == 0);
            assert(m.at(before.shape.back_spec((p, before.shape.walls_spec(p)[k])).0) == 0);
            assert(region_inner(before, filter, m, p, i));
        }
    }
}

} // verus!