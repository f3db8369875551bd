//! Metrics and neighbor-selection modes, and which vectors a metric takes.
//!
//! A vector component is held as the bit pattern of an `f32`: what decides
//! whether a vector is accepted is whether its components are finite and
//! whether they are all zero, and both are plain facts about the bits.

use vstd::prelude::*;

use crate::error::HnswError;
use crate::fault::MetaFault;
use crate::fault::Reason;
use crate::fault::VectorFault;

verus! {

/// A distance function.
#[derive(Debug, Clone, Copy, PartialEq, Eq, Structural)]
pub enum Metric {
    /// Squared Euclidean distance.
    L2,
    /// Cosine distance.
    Cosine,
    /// Negative inner product.
    InnerProduct,
}

impl Metric {
    /// The stored code of the metric.
    pub open spec fn code(self) -> u8 {
        match self {
            Metric::L2 => 0,
            Metric::Cosine => 1,
            Metric::InnerProduct => 2,
        }
    }

    /// The metric with a stored code.
    pub open spec fn decoded(code: u8) -> Result<Metric, HnswError> {
        if code == 0 {
            Ok(Metric::L2)
        } else if code == 1 {
            Ok(Metric::Cosine)
        } else if code == 2 {
            Ok(Metric::InnerProduct)
        } else {
            Err(HnswError::Corrupted(Reason::Meta(MetaFault::Metric { code })))
        }
    }

    /// The metric's name.
    pub open spec fn spec_name(self) -> &'static str {
        match self {
            Metric::L2 => "L2",
            Metric::Cosine => "Cosine",
            Metric::InnerProduct => "InnerProduct",
        }
    }

    /// The stored code of the metric.
    pub fn discriminant(self) -> (r: u8)
        ensures
            r == self.code(),
            Metric::decoded(r) == Ok::<Metric, HnswError>(self),
    {
        match self {
            Metric::L2 => 0,
            Metric::Cosine => 1,
            Metric::InnerProduct => 2,
        }
    }

    /// The metric with a stored code; an unknown code is corrupt.
    pub fn from_discriminant(code: u8) -> (r: Result<Metric, HnswError>)
        ensures
            r == Metric::decoded(code),
    {
        if code == 0 {
            Ok(Metric::L2)
        } else if code == 1 {
            Ok(Metric::Cosine)
        } else if code == 2 {
            Ok(Metric::InnerProduct)
        } else {
            Err(HnswError::Corrupted(Reason::Meta(MetaFault::Metric { code })))
        }
    }

    /// The metric's name.
    pub fn name(self) -> (r: &'static str)
        ensures
            r == self.spec_name(),
    {
        match self {
            Metric::L2 => "L2",
            Metric::Cosine => "Cosine",
            Metric::InnerProduct => "InnerProduct",
        }
    }

    /// Whether the distance of `v` to itself is defined: `v` is not empty,
    /// its components are finite and, for the cosine, not all zero.
    pub fn check_vector(self, v: &[u32]) -> (r: Result<(), HnswError>)
        ensures
            r == vector_check(self, v@),
    {
        match check_pair(v, v) {
            Err(e) => {
                return Err(e);
            },
            Ok(_) => {},
        }
        if self == Metric::Cosine && is_zero(v) {
            return Err(HnswError::ZeroVector);
        }
        Ok(())
    }
}

/// How neighbors are chosen among candidates.
#[derive(Debug, Clone, Copy, PartialEq, Eq, Structural)]
pub enum NeighborSelection {
    /// Prefer candidates that are closer to the node than to one another.
    Heuristic,
    /// Take the nearest candidates.
    Simple,
}

impl NeighborSelection {
    /// The stored code of the mode.
    pub open spec fn code(self) -> u8 {
        match self {
            NeighborSelection::Heuristic => 0,
            NeighborSelection::Simple => 1,
        }
    }

    /// The mode with a stored code.
    pub open spec fn decoded(code: u8) -> Result<NeighborSelection, HnswError> {
        if code == 0 {
            Ok(NeighborSelection::Heuristic)
        } else if code == 1 {
            Ok(NeighborSelection::Simple)
        } else {
            Err(HnswError::Corrupted(Reason::Meta(MetaFault::Selection { code })))
        }
    }

    /// The mode's name.
    pub open spec fn spec_name(self) -> &'static str {
        match self {
            NeighborSelection::Heuristic => "Heuristic",
            NeighborSelection::Simple => "Simple",
        }
    }

    /// The stored code of the mode.
    pub fn discriminant(self) -> (r: u8)
        ensures
            r == self.code(),
            NeighborSelection::decoded(r) == Ok::<NeighborSelection, HnswError>(self),
    {
        match self {
            NeighborSelection::Heuristic => 0,
            NeighborSelection::Simple => 1,
        }
    }

    /// The mode with a stored code; an unknown code is corrupt.
    pub fn from_discriminant(code: u8) -> (r: Result<NeighborSelection, HnswError>)
        ensures
            r == NeighborSelection::decoded(code),
    {
        if code == 0 {
            Ok(NeighborSelection::Heuristic)
        } else if code == 1 {
            Ok(NeighborSelection::Simple)
        } else {
            Err(HnswError::Corrupted(Reason::Meta(MetaFault::Selection { code })))
        }
    }

    /// The mode's name.
    pub fn name(self) -> (r: &'static str)
        ensures
            r == self.spec_name(),
    {
        match self {
            NeighborSelection::Heuristic => "Heuristic",
            NeighborSelection::Simple => "Simple",
        }
    }
}

/// Whether the `f32` with these bits is finite: its exponent is not all ones.
pub open spec fn finite_bits(x: u32) -> bool {
    x / 0x80_0000 % 0x100 != 0xff
}

/// Whether the `f32` with these bits is zero, of either sign.
pub open spec fn zero_bits(x: u32) -> bool {
    x % 0x8000_0000 == 0
}

/// Every component is finite.
pub open spec fn all_finite(v: Seq<u32>) -> bool {
    forall|i: int| 0 <= i < v.len() ==> finite_bits(#[trigger] v[i])
}

/// Every component is zero.
pub open spec fn all_zero(v: Seq<u32>) -> bool {
    forall|i: int| 0 <= i < v.len() ==> zero_bits(#[trigger] v[i])
}

/// The position of the first component that is not finite.
pub open spec fn first_nonfinite(v: Seq<u32>) -> nat
    decreases v.len(),
{
    if v.len() == 0 || !finite_bits(v[0]) {
        0
    } else {
        1 + first_nonfinite(v.skip(1))
    }
}

/// What [`check_pair`] answers.
pub open spec fn pair_check(a: Seq<u32>, b: Seq<u32>) -> Result<(), HnswError> {
    if a.len() != b.len() {
        Err(
            HnswError::InvalidArgument(
                Reason::Vector(
                    VectorFault::DimMismatch { left: a.len() as usize, right: b.len() as usize },
                ),
            ),
        )
    } else if a.len() == 0 {
        Err(HnswError::InvalidArgument(Reason::Vector(VectorFault::DimZero)))
    } else if !all_finite(a) || !all_finite(b) {
        let i = if first_nonfinite(a) <= first_nonfinite(b) {
            first_nonfinite(a)
        } else {
            first_nonfinite(b)
        };
        Err(HnswError::InvalidArgument(Reason::Vector(VectorFault::NonFinite { index: i as usize })))
    } else {
        Ok(())
    }
}

/// What [`Metric::check_vector`] answers: whether the distance of `v` to
/// itself is defined.
pub open spec fn vector_check(metric: Metric, v: Seq<u32>) -> Result<(), HnswError> {
    match pair_check(v, v) {
        Err(e) => Err(e),
        Ok(_) => if metric == Metric::Cosine && all_zero(v) {
            Err(HnswError::ZeroVector)
        } else {
            Ok(())
        },
    }
}

/// The first component that is not finite is where it is said to be.
pub proof fn lemma_first_nonfinite(v: Seq<u32>)
    ensures
        first_nonfinite(v) <= v.len(),
        first_nonfinite(v) < v.len() <==> !all_finite(v),
        first_nonfinite(v) < v.len() ==> !finite_bits(v[first_nonfinite(v) as int]),
        forall|i: int| 0 <= i < first_nonfinite(v) ==> finite_bits(#[trigger] v[i]),
    decreases v.len(),
{
    if v.len() > 0 && finite_bits(v[0]) {
        let t = v.skip(1);
        lemma_first_nonfinite(t);
        assert forall|i: int| 0 <= i < first_nonfinite(v) implies finite_bits(#[trigger] v[i]) by {
            if i > 0 {
                assert(v[i] == t[i - 1]);
            }
        }
        if all_finite(v) {
            assert(all_finite(t)) by {
                assert forall|i: int| 0 <= i < t.len() implies finite_bits(#[trigger] t[i]) by {
                    assert(t[i] == v[i + 1]);
                }
            }
        }
        if !all_finite(t) {
            assert(v[first_nonfinite(v) as int] == t[first_nonfinite(t) as int]);
        }
    }
}

/// The first component that is not finite, by what marks it out.
pub proof fn lemma_first_nonfinite_at(v: Seq<u32>, n: int)
    requires
        0 <= n < v.len(),
        !finite_bits(v[n]),
        forall|i: int| 0 <= i < n ==> finite_bits(#[trigger] v[i]),
    ensures
        first_nonfinite(v) == n,
        !all_finite(v),
{
    lemma_first_nonfinite(v);
    let f = first_nonfinite(v) as int;
    if f < n {
        assert(finite_bits(v[f]));
    }
}

/// Whether the `f32` with these bits is finite.
pub fn is_finite(x: u32) -> (r: bool)
    ensures
        r == finite_bits(x),
{
    x / 0x80_0000 % 0x100 != 0xff
}

/// Whether every component is zero.
pub fn is_zero(v: &[u32]) -> (r: bool)
    ensures
        r == all_zero(v@),
{
    let mut i: usize = 0;
    while i < v.len()
        invariant
            i <= v@.len(),
            forall|j: int| 0 <= j < i ==> zero_bits(#[trigger] v@[j]),
        decreases v@.len() - i,
    {
        if v[i] % 0x8000_0000 != 0 {
            assert(!zero_bits(v@[i as int]));
            return false;
        }
        i = i + 1;
    }
    true
}

/// The position of the first component that is not finite, if there is one.
pub fn find_nonfinite(v: &[u32]) -> (r: Option<usize>)
    ensures
        match r {
            None => all_finite(v@),
            Some(i) => !all_finite(v@) && i == first_nonfinite(v@) && i < v@.len(),
        },
{
    let mut i: usize = 0;
    while i < v.len()
        invariant
            i <= v@.len(),
            forall|j: int| 0 <= j < i ==> finite_bits(#[trigger] v@[j]),
        decreases v@.len() - i,
    {
        if !is_finite(v[i]) {
            proof {
                lemma_first_nonfinite_at(v@, i as int);
            }
            return Some(i);
        }
        i = i + 1;
    }
    None
}

/// Whether two vectors can be compared: equal lengths, not empty, every
/// component finite. A component that is not finite would make every
/// comparison of distances silently false.
pub fn check_pair(a: &[u32], b: &[u32]) -> (r: Result<(), HnswError>)
    ensures
        r == pair_check(a@, b@),
{
    match check_shape(a.len(), b.len()) {
        Err(e) => {
            return Err(e);
        },
        Ok(_) => {},
    }
    proof {
        lemma_first_nonfinite(a@);
        lemma_first_nonfinite(b@);
    }
    let index: usize = match (find_nonfinite(a), find_nonfinite(b)) {
        (None, None) => {
            return Ok(());
        },
        (Some(i), None) => i,
        (None, Some(j)) => j,
        (Some(i), Some(j)) => if i <= j {
            i
        } else {
            j
        },
    };
    Err(HnswError::InvalidArgument(Reason::Vector(VectorFault::NonFinite { index })))
}

/// Whether two vectors have one length, and not the length 0.
pub fn check_shape(a: usize, b: usize) -> (r: Result<(), HnswError>)
    ensures
        r == (if a != b {
            Err::<(), HnswError>(
                HnswError::InvalidArgument(
                    Reason::Vector(VectorFault::DimMismatch { left: a, right: b }),
                ),
            )
        } else if a == 0 {
            Err(HnswError::InvalidArgument(Reason::Vector(VectorFault::DimZero)))
        } else {
            Ok(())
        }),
{
    if a != b {
        return Err(
            HnswError::InvalidArgument(
                Reason::Vector(VectorFault::DimMismatch { left: a, right: b }),
            ),
        );
    }
    if a == 0 {
        return Err(HnswError::InvalidArgument(Reason::Vector(VectorFault::DimZero)));
    }
    Ok(())
}

} // verus!
