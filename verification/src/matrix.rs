//! The distance matrix consumed by the engine: an immutable square matrix of
//! non-negative integer distances indexed by city pair.

use crate::ClonalgError;
use vstd::prelude::*;

verus! {

/// A square matrix of pairwise distances, stored in row-major order.
///
/// Entries are `u32` and the side length is capped at `u32::MAX`, so the
/// open-path cost of any tour (at most `side - 1` edges) always fits in a
/// `u64`: fitness sums can never overflow.
pub struct DistanceMatrix {
    side: usize,
    entries: Vec<u32>,
}

impl DistanceMatrix {
    /// Well-formedness: the entry list is exactly `side * side` long, and the
    /// side is small enough that cost sums stay representable.
    pub closed spec fn wf(&self) -> bool {
        &&& self.entries@.len() == self.side * self.side
        &&& self.side <= u32::MAX
        &&& self.side * self.side <= usize::MAX
    }

    /// The number of cities.
    pub closed spec fn spec_side(&self) -> nat {
        self.side as nat
    }

    /// The distance from city `i` to city `j`.
    pub closed spec fn at(&self, i: int, j: int) -> int {
        self.entries@[i * (self.side as int) + j] as int
    }

    /// A well-formed matrix has at most `u32::MAX` cities.
    pub proof fn lemma_side_bound(&self)
        requires
            self.wf(),
        ensures
            self.spec_side() <= u32::MAX,
    {
    }

    /// Every entry is a non-negative number no larger than `u32::MAX`.
    pub proof fn lemma_entry_bounds(&self, i: int, j: int)
        requires
            self.wf(),
            0 <= i < self.spec_side(),
            0 <= j < self.spec_side(),
        ensures
            0 <= self.at(i, j) <= u32::MAX,
    {
        let s = self.side as int;
        assert(0 <= i * s + j < s * s) by (nonlinear_arith)
            requires 0 <= i < s && 0 <= j < s;
    }

    /// Builds a matrix from a side length and a row-major entry list.
    /// Fails exactly when the inputs do not form a square of a supported
    /// size.
    pub fn new(side: usize, entries: Vec<u32>) -> (r: Result<DistanceMatrix, ClonalgError>)
        ensures
            r.is_ok() <==> (side <= u32::MAX && entries@.len() == side * side),
            match r {
                Ok(m) => {
                    &&& m.wf()
                    &&& m.spec_side() == side
                    &&& forall|i: int, j: int|
                        0 <= i < side && 0 <= j < side ==> m.at(i, j) == entries@[i * side + j]
                },
                Err(e) => e == ClonalgError::MalformedMatrix,
            },
    {
        let len = entries.len();
        if side > u32::MAX as usize {
            return Err(ClonalgError::MalformedMatrix);
        }
        let square: Option<usize> = side.checked_mul(side);
        match square {
            Some(sq) => {
                if len != sq {
                    return Err(ClonalgError::MalformedMatrix);
                }
                Ok(DistanceMatrix { side, entries })
            },
            // The square overflows `usize`, so no entry list can fill it.
            None => Err(ClonalgError::MalformedMatrix),
        }
    }

    /// The number of cities, as an executable value.
    pub fn side(&self) -> (n: usize)
        ensures
            n == self.spec_side(),
    {
        self.side
    }

    /// Reads the distance from city `i` to city `j`.
    pub fn get(&self, i: usize, j: usize) -> (d: u32)
        requires
            self.wf(),
            i < self.spec_side(),
            j < self.spec_side(),
        ensures
            d as int == self.at(i as int, j as int),
    {
        proof {
            let s = self.side as int;
            assert(0 <= (i as int) * s + (j as int) < s * s) by (nonlinear_arith)
                requires 0 <= i < s && 0 <= j < s;
        }
        self.entries[i * self.side + j]
    }
}

} // verus!
