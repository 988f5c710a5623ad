//! Physical positions.
//!
//! Physical coordinates are exact integers on a lattice of the maze's shape:
//! one unit along `x` is a twentieth of the horizontal extent of a room's
//! corner from its centre, and one unit along `y` is a fortieth of the room's
//! circumradius for triangular and hexagonal rooms (for quadrilateral rooms, a
//! twentieth of the vertical extent of a corner). Every room centre and every
//! corner is a lattice point, so the geometry needs no rounding. The `y` axis
//! points down, and angles grow from the `x` axis towards the `y` axis.

use vstd::prelude::*;

verus! {

/// The bound on the coordinates of physical positions that the geometry
/// accepts.
pub const PHYS_LIMIT: i64 = 0x4000_0000;

/// A physical position.
#[derive(Clone, Copy, Debug, PartialEq, Eq, Hash, Structural)]
pub struct Pos {
    /// The horizontal coordinate.
    pub x: i64,
    /// The vertical coordinate, growing downwards.
    pub y: i64,
}

impl Pos {
    /// Whether both coordinates lie strictly within `PHYS_LIMIT` of zero.
    pub open spec fn in_range(self) -> bool {
        -PHYS_LIMIT < self.x < PHYS_LIMIT && -PHYS_LIMIT < self.y < PHYS_LIMIT
    }
}

/// Divides rounding towards negative infinity.
pub fn floor_div(a: i64, b: i64) -> (r: i64)
    requires
        0 < b <= 1000,
        -0x100_0000_0000 < a < 0x100_0000_0000,
    ensures
        r == a / b,
        a - b < r * b <= a,
{
    if a >= 0 {
        let q = (a as u64) / (b as u64);
        proof {
            vstd::arithmetic::div_mod::lemma_fundamental_div_mod(a as int, b as int);
            vstd::arithmetic::div_mod::lemma_mod_bound(a as int, b as int);
        }
        q as i64
    } else {
        let q = ((-(a + 1)) as u64) / (b as u64);
        proof {
            let n = -(a + 1);
            vstd::arithmetic::div_mod::lemma_fundamental_div_mod(n as int, b as int);
            vstd::arithmetic::div_mod::lemma_mod_bound(n as int, b as int);
            let m = n % (b as int);
            assert(a == (-(q as int) - 1) * b + (b - m - 1)) by (nonlinear_arith)
                requires
                    n == b * q + m,
                    n == -(a + 1),
            ;
            vstd::arithmetic::div_mod::lemma_fundamental_div_mod_converse_div(
                a as int,
                b as int,
                -(q as int) - 1,
                b - m - 1,
            );
            assert(q * b <= n) by (nonlinear_arith)
                requires
                    n == b * q + m,
                    0 <= m,
            ;
        }
        -(q as i64) - 1
    }
}

} // verus!
