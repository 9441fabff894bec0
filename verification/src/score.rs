//! Scores as the search strategies see them.

use vstd::prelude::*;

verus! {

/// Key of negative infinity.
pub const NEG_INFINITY_KEY: i64 = -9218868437227405313;

/// Key of positive infinity.
pub const INFINITY_KEY: i64 = 9218868437227405312;

/// Key of `1e-4`, the bound above which a score refutes a conjecture.
pub const COUNTEREXAMPLE_KEY: i64 = 4547007122018943789;

/// A score, held as the position of a double in the IEEE 754 total order.
///
/// For a double with bit pattern `b`, read as a signed 64-bit integer, the key
/// is `b` where `b >= 0` and `b ^ 0x7fff_ffff_ffff_ffff` otherwise. Keys compare
/// as the doubles do, zero has key `0`, and the strategies never need more of
/// a score than its order.
#[derive(PartialEq, Eq, Structural, Clone, Copy, Debug)]
pub struct Score {
    pub key: i64,
}

impl Score {
    /// The score below every other.
    pub fn neg_infinity() -> (s: Score)
        ensures
            s.key == NEG_INFINITY_KEY,
    {
        Score { key: NEG_INFINITY_KEY }
    }

    /// The score above every finite one.
    pub fn infinity() -> (s: Score)
        ensures
            s.key == INFINITY_KEY,
    {
        Score { key: INFINITY_KEY }
    }

    /// The score of a graph on which the eigenvalue and the bound coincide.
    pub fn zero() -> (s: Score)
        ensures
            s.key == 0,
    {
        Score { key: 0 }
    }

    /// Is `self` strictly above `other`?
    pub fn exceeds(self, other: Score) -> (b: bool)
        ensures
            b == (self.key > other.key),
    {
        self.key > other.key
    }

    /// Does a graph with this score refute its conjecture?
    pub fn is_counterexample(self) -> (b: bool)
        ensures
            b == (self.key > COUNTEREXAMPLE_KEY),
    {
        self.key > COUNTEREXAMPLE_KEY
    }
}

} // verus!
