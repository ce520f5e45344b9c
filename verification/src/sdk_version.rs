//! Version intervals and the two ways of combining them.

use vstd::prelude::*;

verus! {

/// The SDK versions a piece of code can run on: every version from
/// `min_sdk_version` up to and including `max_sdk_version`, or every version
/// from `min_sdk_version` on when `max_sdk_version` is absent.
#[derive(Debug, Clone, Copy, PartialEq, Eq, Structural)]
pub struct SdkVersionOut {
    pub min_sdk_version: u64,
    pub max_sdk_version: Option<u64>,
}

/// The smaller of two upper bounds, where an absent bound constrains nothing.
pub open spec fn minimum_of_max(lhs: Option<u64>, rhs: Option<u64>) -> Option<u64> {
    match (lhs, rhs) {
        (Some(l), Some(r)) => Some(if l <= r { l } else { r }),
        (Some(l), None) => Some(l),
        (None, Some(r)) => Some(r),
        (None, None) => None,
    }
}

/// The interval of versions that satisfy both `lhs` and `rhs`.
pub open spec fn intersection(lhs: SdkVersionOut, rhs: SdkVersionOut) -> SdkVersionOut {
    SdkVersionOut {
        min_sdk_version: if lhs.min_sdk_version >= rhs.min_sdk_version {
            lhs.min_sdk_version
        } else {
            rhs.min_sdk_version
        },
        max_sdk_version: minimum_of_max(lhs.max_sdk_version, rhs.max_sdk_version),
    }
}

/// The loosest interval that covers both `lhs` and `rhs`: the guarantee left
/// when only one of two branches runs.
pub open spec fn union(lhs: SdkVersionOut, rhs: SdkVersionOut) -> SdkVersionOut {
    SdkVersionOut {
        min_sdk_version: if lhs.min_sdk_version <= rhs.min_sdk_version {
            lhs.min_sdk_version
        } else {
            rhs.min_sdk_version
        },
        max_sdk_version: match (lhs.max_sdk_version, rhs.max_sdk_version) {
            (Some(l), Some(r)) => Some(if l >= r { l } else { r }),
            _ => None,
        },
    }
}

/// The interval that starts at `default_version` and has no upper bound.
pub open spec fn unbounded_from(default_version: u64) -> SdkVersionOut {
    SdkVersionOut { min_sdk_version: default_version, max_sdk_version: None }
}

impl Default for SdkVersionOut {
    /// The interval that constrains nothing.
    fn default() -> (version: Self)
        ensures
            version == unbounded_from(0),
    {
        SdkVersionOut { min_sdk_version: 0, max_sdk_version: None }
    }
}

impl SdkVersionOut {
    /// The interval that starts at `default_version` and has no upper bound.
    pub fn new(default_version: u64) -> (version: Self)
        ensures
            version == unbounded_from(default_version),
    {
        Self { min_sdk_version: default_version, max_sdk_version: None }
    }

    /// The interval of versions that satisfy both `lhs` and `rhs`.
    pub fn sdk_version_intersection(lhs: SdkVersionOut, rhs: SdkVersionOut) -> (version:
        SdkVersionOut)
        ensures
            version == intersection(lhs, rhs),
    {
        SdkVersionOut {
            min_sdk_version: if lhs.min_sdk_version >= rhs.min_sdk_version {
                lhs.min_sdk_version
            } else {
                rhs.min_sdk_version
            },
            max_sdk_version: Self::sdk_version_minimum_of_max(
                lhs.max_sdk_version,
                rhs.max_sdk_version,
            ),
        }
    }

    /// The smaller of two upper bounds, where an absent bound constrains
    /// nothing.
    pub fn sdk_version_minimum_of_max(lhs: Option<u64>, rhs: Option<u64>) -> (bound: Option<u64>)
        ensures
            bound == minimum_of_max(lhs, rhs),
    {
        match (lhs, rhs) {
            (Some(l), Some(r)) => Some(if l <= r { l } else { r }),
            (Some(l), None) => Some(l),
            (None, Some(r)) => Some(r),
            (None, None) => None,
        }
    }

    /// The loosest interval that covers both `lhs` and `rhs`.
    pub fn sdk_version_union(lhs: SdkVersionOut, rhs: SdkVersionOut) -> (version: SdkVersionOut)
        ensures
            version == union(lhs, rhs),
    {
        SdkVersionOut {
            min_sdk_version: if lhs.min_sdk_version <= rhs.min_sdk_version {
                lhs.min_sdk_version
            } else {
                rhs.min_sdk_version
            },
            max_sdk_version: match (lhs.max_sdk_version, rhs.max_sdk_version) {
                (Some(l), Some(r)) => Some(if l >= r { l } else { r }),
                _ => None,
            },
        }
    }
}

/// Intersection does not depend on how its operands are grouped.
pub proof fn lemma_intersection_associative(a: SdkVersionOut, b: SdkVersionOut, c: SdkVersionOut)
    ensures
        intersection(a, intersection(b, c)) == intersection(intersection(a, b), c),
{
}

/// Intersection does not depend on the order of its operands.
pub proof fn lemma_intersection_commutative(a: SdkVersionOut, b: SdkVersionOut)
    ensures
        intersection(a, b) == intersection(b, a),
{
}

/// Intersecting an interval with itself gives it back.
pub proof fn lemma_intersection_idempotent(a: SdkVersionOut)
    ensures
        intersection(a, a) == a,
{
}

/// Union does not depend on how its operands are grouped.
pub proof fn lemma_union_associative(a: SdkVersionOut, b: SdkVersionOut, c: SdkVersionOut)
    ensures
        union(a, union(b, c)) == union(union(a, b), c),
{
}

/// Union does not depend on the order of its operands.
pub proof fn lemma_union_commutative(a: SdkVersionOut, b: SdkVersionOut)
    ensures
        union(a, b) == union(b, a),
{
}

/// The union of an interval with itself gives it back.
pub proof fn lemma_union_idempotent(a: SdkVersionOut)
    ensures
        union(a, a) == a,
{
}

/// Intersection only narrows: the result starts no lower than either operand,
/// and ends no higher than either upper bound that is present.
pub proof fn lemma_intersection_narrows(a: SdkVersionOut, b: SdkVersionOut)
    ensures
        intersection(a, b).min_sdk_version >= a.min_sdk_version,
        intersection(a, b).min_sdk_version >= b.min_sdk_version,
        a.max_sdk_version is Some ==> intersection(a, b).max_sdk_version is Some
            && intersection(a, b).max_sdk_version->0 <= a.max_sdk_version->0,
        b.max_sdk_version is Some ==> intersection(a, b).max_sdk_version is Some
            && intersection(a, b).max_sdk_version->0 <= b.max_sdk_version->0,
{
}

/// Union only widens: the result starts no higher than either operand, and,
/// where it has an upper bound, ends no lower than either operand.
pub proof fn lemma_union_widens(a: SdkVersionOut, b: SdkVersionOut)
    ensures
        union(a, b).min_sdk_version <= a.min_sdk_version,
        union(a, b).min_sdk_version <= b.min_sdk_version,
        union(a, b).max_sdk_version is Some ==> a.max_sdk_version is Some && b.max_sdk_version
            is Some && union(a, b).max_sdk_version->0 >= a.max_sdk_version->0 && union(
            a,
            b,
        ).max_sdk_version->0 >= b.max_sdk_version->0,
{
}

/// The interval that constrains nothing is neutral for intersection.
pub proof fn lemma_intersection_identity(a: SdkVersionOut)
    ensures
        intersection(unbounded_from(0), a) == a,
        intersection(a, unbounded_from(0)) == a,
{
}

} // verus!
