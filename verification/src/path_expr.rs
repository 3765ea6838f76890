//! Path expressions: the navigation patterns that extraction matches.
//!
//! A [`PathExpression`] is an ordered sequence of [`PathLeg`]s together with
//! precomputed flags recording whether any leg is a single-level wildcard or
//! a recursive-descent wildcard. The flags decide result wrapping without
//! re-scanning the legs.

use vstd::prelude::*;

verus! {

/// The index selector of an `Index` leg: one array position, or every
/// position (the `[*]` wildcard).
#[derive(Debug, Clone, Copy, PartialEq, Eq)]
pub enum IndexSelector {
    Pos(usize),
    All,
}

/// The key selector of a `Key` leg: one literal key, or every key (the `.*`
/// wildcard).
#[derive(Debug, Clone, PartialEq, Eq)]
pub enum KeySelector {
    Name(String),
    All,
}

/// One navigation step of a path expression.
#[derive(Debug, Clone, PartialEq, Eq)]
pub enum PathLeg {
    /// Array element access, with auto-wrapping of non-arrays for position 0.
    Index(IndexSelector),
    /// Object member access; yields nothing on non-objects.
    Key(KeySelector),
    /// Recursive descent: the node itself and every descendant.
    DoubleAsterisk,
}

/// The precomputed wildcard-presence flags of a path expression.
#[derive(Debug, Clone, Copy, PartialEq, Eq)]
pub struct PathExpressionFlag {
    /// Some leg is `Index(All)` or `Key(All)`.
    pub contains_asterisk: bool,
    /// Some leg is `DoubleAsterisk`.
    pub contains_double_asterisk: bool,
}

/// A compiled path expression: its legs, in order, and its wildcard flags.
#[derive(Debug, Clone, PartialEq, Eq)]
pub struct PathExpression {
    pub legs: Vec<PathLeg>,
    pub flags: PathExpressionFlag,
}

/// Whether a leg is a wildcard of the single-level kind.
pub open spec fn leg_is_asterisk(leg: PathLeg) -> bool {
    leg == PathLeg::Index(IndexSelector::All) || leg matches PathLeg::Key(KeySelector::All)
}

/// Whether none of `legs[pos..]` is a wildcard of either kind.
pub open spec fn no_wildcards(legs: Seq<PathLeg>, pos: int) -> bool {
    forall|t: int|
        pos <= t < legs.len() ==> !leg_is_asterisk(#[trigger] legs[t]) && legs[t]
            != PathLeg::DoubleAsterisk
}

/// Whether an expression's flags record any wildcard at all.
pub open spec fn has_any_asterisk(e: PathExpression) -> bool {
    e.flags.contains_asterisk || e.flags.contains_double_asterisk
}

/// Whether the flags agree with the legs they were computed from.
pub open spec fn flags_consistent(e: PathExpression) -> bool {
    &&& e.flags.contains_asterisk == exists|i: int|
        0 <= i < e.legs@.len() && leg_is_asterisk(e.legs@[i])
    &&& e.flags.contains_double_asterisk == exists|i: int|
        0 <= i < e.legs@.len() && e.legs@[i] == PathLeg::DoubleAsterisk
}

impl Default for PathExpressionFlag {
    /// No wildcard of either kind.
    fn default() -> (r: Self)
        ensures
            !r.contains_asterisk,
            !r.contains_double_asterisk,
    {
        PathExpressionFlag { contains_asterisk: false, contains_double_asterisk: false }
    }
}

impl PathExpression {
    /// Compiles a leg sequence, computing the wildcard flags by one scan.
    pub fn new(legs: Vec<PathLeg>) -> (r: PathExpression)
        ensures
            r.legs == legs,
            flags_consistent(r),
    {
        let mut contains_asterisk = false;
        let mut contains_double_asterisk = false;
        let n = legs.len();
        for i in 0..n
            invariant
                n == legs@.len(),
                contains_asterisk == exists|j: int| 0 <= j < i && leg_is_asterisk(legs@[j]),
                contains_double_asterisk == exists|j: int|
                    0 <= j < i && legs@[j] == PathLeg::DoubleAsterisk,
        {
            match &legs[i] {
                PathLeg::Index(IndexSelector::All) => {
                    contains_asterisk = true;
                },
                PathLeg::Key(KeySelector::All) => {
                    contains_asterisk = true;
                },
                PathLeg::DoubleAsterisk => {
                    contains_double_asterisk = true;
                },
                _ => {},
            }
        }
        PathExpression {
            legs,
            flags: PathExpressionFlag { contains_asterisk, contains_double_asterisk },
        }
    }

    /// Whether this expression records any single-level or recursive-descent
    /// wildcard. A true flag forces the extraction result to be wrapped in an
    /// array.
    pub fn contains_any_asterisk(&self) -> (r: bool)
        ensures
            r == has_any_asterisk(*self),
    {
        self.flags.contains_asterisk || self.flags.contains_double_asterisk
    }
}

} // verus!
