//! The rooms that a rectangle touches.

use vstd::prelude::*;

use crate::matrix::{Pos, COORD_LIMIT};
use crate::maze::Maze;
use crate::physical;
use crate::shape::{self, ring_distance, surround, Shape, ViewBox};

verus! {

/// The bound on the corner and the sides of the rectangles that
/// `rooms_touched_by` accepts.
pub const TOUCH_LIMIT: i64 = 0x100_0000;

/// Whether the centre of the room at `pos`, or the first corner of one of
/// its walls, lies in `viewbox`.
pub open spec fn touches(shape: Shape, viewbox: ViewBox, pos: Pos) -> bool {
    let c = shape.center_spec(pos);
    viewbox.holds(c.x as int, c.y as int) || exists|k: int|
        0 <= k < shape.walls_spec(pos).len() && viewbox.holds(
            c.x + (#[trigger] shape.walls_spec(pos)[k]).span.0.dx,
            c.y + shape.walls_spec(pos)[k].span.0.dy,
        )
}

/// Whether `viewbox` lies within reach of the touch arithmetic.
pub open spec fn touch_bounded(viewbox: ViewBox) -> bool {
    &&& -TOUCH_LIMIT <= viewbox.corner.x <= TOUCH_LIMIT
    &&& -TOUCH_LIMIT <= viewbox.corner.y <= TOUCH_LIMIT
    &&& 0 <= viewbox.width <= TOUCH_LIMIT
    &&& 0 <= viewbox.height <= TOUCH_LIMIT
}

/// The room that holds the centre of `viewbox`.
pub open spec fn touch_start(shape: Shape, viewbox: ViewBox) -> Pos {
    shape.room_at_spec(
        physical::Pos {
            x: (viewbox.corner.x + viewbox.width / 2) as i64,
            y: (viewbox.corner.y + viewbox.height / 2) as i64,
        },
    )
}

/// The ring distance from the start beyond which no room touches `viewbox`.
pub open spec fn touch_bound(viewbox: ViewBox) -> int {
    6 + (if viewbox.width >= viewbox.height {
        viewbox.width
    } else {
        viewbox.height
    }) / 20
}

/// Whether a room at ring distance `d` from `start` touches `viewbox`.
pub open spec fn ring_touched(shape: Shape, viewbox: ViewBox, start: Pos, d: int) -> bool {
    exists|q: Pos| ring_distance(q, start) == d && #[trigger] touches(shape, viewbox, q)
}

/// Whether ring `k` is the first ring around the room under the centre of
/// `viewbox` that touches it nowhere.
pub open spec fn stops_at(shape: Shape, viewbox: ViewBox, k: int) -> bool {
    let start = touch_start(shape, viewbox);
    &&& 0 <= k <= touch_bound(viewbox)
    &&& forall|d: int| 0 <= d < k ==> #[trigger] ring_touched(shape, viewbox, start, d)
    &&& !ring_touched(shape, viewbox, start, k)
}

/// A room holding a point lies close to it: its centre is within one room
/// radius along each axis.
#[verifier::rlimit(50)]
pub proof fn lemma_room_at_close(shape: Shape, p: physical::Pos)
    requires
        p.in_range(),
    ensures
        -40 <= p.x - shape.center_spec(shape.room_at_spec(p)).x <= 40,
        -40 <= p.y - shape.center_spec(shape.room_at_spec(p)).y <= 40,
{
}

/// Rooms on a ring far enough from the start do not touch the rectangle.
pub proof fn lemma_far_rooms_miss(shape: Shape, viewbox: ViewBox, pos: Pos)
    requires
        touch_bounded(viewbox),
        ring_distance(pos, touch_start(shape, viewbox)) >= touch_bound(viewbox),
        pos.in_range(),
    ensures
        !touches(shape, viewbox, pos),
{
    let vc = physical::Pos {
        x: (viewbox.corner.x + viewbox.width / 2) as i64,
        y: (viewbox.corner.y + viewbox.height / 2) as i64,
    };
    let start = touch_start(shape, viewbox);
    lemma_room_at_close(shape, vc);
    lemma_centers_apart(shape, pos, start);
    shape::lemma_walls_of_room(shape, pos);
    let c = shape.center_spec(pos);
    assert forall|k: int| 0 <= k < shape.walls_spec(pos).len() implies !viewbox.holds(
        c.x + (#[trigger] shape.walls_spec(pos)[k]).span.0.dx,
        c.y + shape.walls_spec(pos)[k].span.0.dy,
    ) by {
        shape::lemma_wall_facts(shape, shape.walls_spec(pos)[k].index as int);
    }
}

/// The centres of rooms on a ring around a room are far from its centre
/// along one axis.
#[verifier::rlimit(50)]
pub proof fn lemma_centers_apart(shape: Shape, a: Pos, b: Pos)
    requires
        a.in_range(),
        b.in_range(),
    ensures
        ({
            let d = ring_distance(a, b);
            let ca = shape.center_spec(a);
            let cb = shape.center_spec(b);
            ca.x - cb.x >= 20 * d - 20 || cb.x - ca.x >= 20 * d - 20 || ca.y - cb.y >= 20 * d
                - 20 || cb.y - ca.y >= 20 * d - 20
        }),
{
}

impl<T> Maze<T> {
    /// Returns whether the centre of the room at `pos`, or the first corner
    /// of one of its walls, lies in `viewbox`.
    pub fn touches(&self, viewbox: ViewBox, pos: Pos) -> (r: bool)
        requires
            pos.in_range(),
            touch_bounded(viewbox),
        ensures
            r == touches(self.shape, viewbox, pos),
    {
        let left = viewbox.corner.x;
        let top = viewbox.corner.y;
        let right = left + viewbox.width;
        let bottom = top + viewbox.height;
        let center = self.center(pos);
        if center.x >= left && center.y >= top && center.x <= right && center.y <= bottom {
            return true;
        }
        let walls = self.walls(pos);
        proof {
            shape::lemma_walls_of_room(self.shape, pos);
        }
        let mut k: usize = 0;
        while k < walls.len()
            invariant
                pos.in_range(),
                touch_bounded(viewbox),
                left == viewbox.corner.x,
                top == viewbox.corner.y,
                right == left + viewbox.width,
                bottom == top + viewbox.height,
                center == self.shape.center_spec(pos),
                !viewbox.holds(center.x as int, center.y as int),
                walls@ == self.shape.walls_spec(pos),
                forall|j: int| 0 <= j < walls@.len() ==> self.shape.has_wall(#[trigger] walls@[j]),
                forall|j: int|
                    0 <= j < k ==> !viewbox.holds(
                        center.x + (#[trigger] walls@[j]).span.0.dx,
                        center.y + walls@[j].span.0.dy,
                    ),
            decreases walls.len() - k,
        {
            proof {
                shape::lemma_wall_facts(self.shape, walls@[k as int].index as int);
            }
            let x = center.x + walls[k].span.0.dx;
            let y = center.y + walls[k].span.0.dy;
            if x >= left && y >= top && x <= right && y <= bottom {
                return true;
            }
            k += 1;
        }
        false
    }

    /// Returns the rooms touched by a rectangle: those whose centre or one of
    /// whose corners lies in it.
    ///
    /// Rings of rooms are examined outwards from the room under the centre
    /// of the rectangle, and the search stops at the first ring with no
    /// touched room. The rooms may lie outside of the maze.
    pub fn rooms_touched_by(&self, viewbox: ViewBox) -> (r: Vec<Pos>)
        requires
            touch_bounded(viewbox),
        ensures
            r@.no_duplicates(),
            exists|k: int|
                #[trigger] stops_at(self.shape, viewbox, k) && forall|q: Pos|
                    #[trigger] r@.contains(q) <==> touches(self.shape, viewbox, q) && ring_distance(
                        q,
                        touch_start(self.shape, viewbox),
                    ) < k,
    {
        let center = viewbox.center();
        let start = self.room_at(center);
        let bound: usize = (6 + (if viewbox.width >= viewbox.height {
            viewbox.width
        } else {
            viewbox.height
        }) / 20) as usize;
        proof {
            lemma_room_at_close(self.shape, center);
        }
        let mut result: Vec<Pos> = Vec::new();
        let mut distance: usize = 0;
        loop
            invariant
                touch_bounded(viewbox),
                start == touch_start(self.shape, viewbox),
                start.in_range(),
                -0x40_0000 <= start.col <= 0x40_0000,
                -0x40_0000 <= start.row <= 0x40_0000,
                bound == touch_bound(viewbox),
                distance <= bound,
                result@.no_duplicates(),
                forall|q: Pos|
                    #[trigger] result@.contains(q) <==> touches(self.shape, viewbox, q) && ring_distance(q, start) < distance,
                forall|d: int| 0 <= d < distance ==> #[trigger] ring_touched(self.shape, viewbox, start, d),
            decreases bound - distance,
        {
            let ring = surround(start, distance);
            let before = result.len();
            let ghost old_result = result@;
            let mut i: usize = 0;
            while i < ring.len()
                invariant
                    touch_bounded(viewbox),
                    start.in_range(),
                    -0x40_0000 <= start.col <= 0x40_0000,
                    -0x40_0000 <= start.row <= 0x40_0000,
                    i <= ring@.len(),
                    distance <= bound,
                    bound == touch_bound(viewbox),
                    ring@.no_duplicates(),
                    forall|q: Pos| ring@.contains(q) <==> ring_distance(q, start) == distance,
                    result@.no_duplicates(),
                    before == old_result.len(),
                    result@.len() >= before,
                    result@.subrange(0, before as int) == old_result,
                    forall|q: Pos|
                        #[trigger] result@.contains(q) <==> (old_result.contains(q) || exists|j: int|
                            0 <= j < i && ring@[j] == q && touches(self.shape, viewbox, q)),
                    forall|q: Pos| #[trigger] old_result.contains(q) ==> ring_distance(q, start) < distance,
                    result@.len() > before ==> ring_touched(self.shape, viewbox, start, distance as int),
                decreases ring.len() - i,
            {
                let q = ring[i];
                proof {
                    assert(ring@.contains(q));
                    assert(ring_distance(q, start) == distance);
                }
                if self.touches(viewbox, q) {
                    let ghost pre = result@;
                    proof {
                        shape::lemma_push_fresh(result@, q);
                        if result@.contains(q) {
                            let j = choose|j: int| 0 <= j < i && ring@[j] == q && touches(self.shape, viewbox, q);
                            assert(ring@[j] == ring@[i as int]);
                        }
                    }
                    result.push(q);
                    proof {
                        assert(result@.subrange(0, before as int) =~= pre.subrange(0, before as int));
                    }
                }
                proof {
                    shape::lemma_push_fresh(old_result, q);
                }
                i += 1;
            }
            if result.len() == before {
                proof {
                    assert forall|q: Pos| ring_distance(q, start) == distance implies !#[trigger] touches(self.shape, viewbox, q) by {
                        assert(ring@.contains(q));
                        let j = choose|j: int| 0 <= j < ring@.len() && ring@[j] == q;
                        if touches(self.shape, viewbox, q) {
                            assert(result@.contains(q));
                            assert(!old_result.contains(q));
                            assert(result@.len() > before) by {
                                if result@.len() == before {
                                    assert(result@ =~= result@.subrange(0, before as int));
                                }
                            }
                        }
                    }
                }
                assert(stops_at(self.shape, viewbox, distance as int));
                return result;
            }
            proof {
                assert forall|q: Pos| #[trigger] result@.contains(q) <==> touches(self.shape, viewbox, q) && ring_distance(q, start) < distance + 1 by {
                    if touches(self.shape, viewbox, q) && ring_distance(q, start) == distance {
                        assert(ring@.contains(q));
                        let j = choose|j: int| 0 <= j < ring@.len() && ring@[j] == q;
                        assert(result@.contains(q));
                    }
                    if result@.contains(q) && !old_result.contains(q) {
                        let j = choose|j: int| 0 <= j < ring@.len() && ring@[j] == q && touches(self.shape, viewbox, q);
                        assert(ring@.contains(q));
                    }
                }
                let q = choose|q: Pos| ring_distance(q, start) == distance && #[trigger] touches(self.shape, viewbox, q);
                assert(q.in_range());
                if distance == bound {
                    lemma_far_rooms_miss(self.shape, viewbox, q);
                }
            }
            distance += 1;
        }
    }
}

} // verus!
