//! Generation strategies and the source of randomness they draw from.

use vstd::prelude::*;

use crate::matrix::Matrix;
use crate::maze::Maze;

pub mod clear;

verus! {

/// A source of random numbers.
pub trait Randomizer {
    /// Returns a number in `low..high`.
    fn range(&mut self, low: usize, high: usize) -> (r: usize)
        requires
            low < high,
        ensures
            low <= r < high,
    ;
}

#[verifier::external_type_specification]
#[verifier::external_body]
pub struct ExStdRng(rand::rngs::StdRng);

/// Relies on rand's `Rng::gen_range`: a value of the half-open range, which
/// panics only when the range is empty.
#[verifier::external_body]
fn gen_range(rng: &mut rand::rngs::StdRng, low: usize, high: usize) -> (r: usize)
    requires
        low < high,
    ensures
        low <= r < high,
{
    rand::Rng::gen_range(rng, low..high)
}

impl Randomizer for rand::rngs::StdRng {
    fn range(&mut self, low: usize, high: usize) -> (r: usize) {
        gen_range(self, low, high)
    }
}

/// A strategy that generates the passages of the rooms a filter selects.
#[derive(Clone, Copy, Debug, PartialEq, Eq, Hash, Structural)]
pub enum Method {
    /// Opens every wall between two selected rooms.
    Clear,
}

impl Method {
    /// What applying this method to `before` with `filter` yields: the
    /// walls of `after` are those that `method` opens on top of `before`.
    pub open spec fn applied<T>(self, before: Maze<T>, filter: Matrix<bool>, after: Maze<T>) -> bool {
        match self {
            Method::Clear => clear::is_cleared(before, filter, after),
        }
    }

    /// Applies this method to the rooms of `maze` that `filter` selects.
    pub fn apply<T, R: Randomizer>(self, maze: Maze<T>, rng: &mut R, filter: &Matrix<bool>) -> (r:
        Maze<T>)
        requires
            maze.wf(),
            filter.wf(),
            filter.width == maze.rooms.width,
            filter.height == maze.rooms.height,
        ensures
            self.applied(maze, *filter, r),
    {
        match self {
            Method::Clear => clear::initialize(maze, rng, filter),
        }
    }

    /// Returns the method with the name `name`.
    pub fn from_name(name: &str) -> (r: Option<Method>)
        ensures
            r == (if name@ == "clear"@ {
                Some(Method::Clear)
            } else {
                None
            }),
    {
        if str_eq(name, "clear") {
            Some(Method::Clear)
        } else {
            None
        }
    }
}

/// Returns whether two strings hold the same characters.
pub fn str_eq(a: &str, b: &str) -> (r: bool)
    ensures
        r == (a@ == b@),
{
    let x = a.to_owned();
    let y = b.to_owned();
    x == y
}

} // verus!
