//! Construction parameters and node identity.

use vstd::prelude::*;

use crate::error::HnswError;
use crate::fault::ParamFault;
use crate::fault::Reason;

verus! {

/// The raw id of no node: the entry point of an empty graph. Ids are
/// allocated from 0 upward and never reach it.
pub const INVALID_NODE: u32 = 0xffff_ffff;

/// Node identifier: densely increasing from 0 and never reused.
///
/// Position is identity: the i-th node record of a snapshot, and the i-th
/// entry of an index directory, is `NodeId(i)`.
#[derive(Debug, Clone, Copy, PartialEq, Eq, PartialOrd, Ord, Hash, Structural)]
pub struct NodeId(pub u32);

impl NodeId {
    /// The id of no node.
    pub fn invalid() -> (id: NodeId)
        ensures
            id == NodeId(INVALID_NODE),
    {
        NodeId(INVALID_NODE)
    }

    /// Zero-based position of this node.
    pub fn index(self) -> (i: usize)
        ensures
            i == self.0,
    {
        self.0 as usize
    }
}

/// Construction parameters.
///
/// `m`, `m_max0` and `ef_construction` determine the graph's shape and are
/// part of a snapshot. `ef_search_default` is a query-time default and is
/// not. The fields are private, so every value has passed
/// [`HnswParams::new`].
#[derive(Debug, Clone, Copy, PartialEq, Eq)]
pub struct HnswParams {
    m: u16,
    m_max0: u16,
    ef_construction: u32,
    ef_search_default: u32,
}

/// What is wrong with a set of construction parameters, if anything; the
/// checks in this order.
pub open spec fn param_fault(
    m: u16,
    m_max0: u16,
    ef_construction: u32,
    ef_search_default: u32,
) -> Option<ParamFault> {
    if m < 2 {
        Some(ParamFault::MBelowTwo { m })
    } else if m_max0 < m {
        Some(ParamFault::MMax0BelowM { m_max0, m })
    } else if ef_construction < m {
        Some(ParamFault::EfConstructionBelowM { ef: ef_construction, m })
    } else if ef_search_default < m {
        Some(ParamFault::EfSearchBelowM { ef: ef_search_default, m })
    } else {
        None
    }
}

impl HnswParams {
    /// The parameter `M`.
    pub closed spec fn spec_m(self) -> u16 {
        self.m
    }

    /// The parameter `M_max0`.
    pub closed spec fn spec_m_max0(self) -> u16 {
        self.m_max0
    }

    /// The parameter `ef_construction`.
    pub closed spec fn spec_ef_construction(self) -> u32 {
        self.ef_construction
    }

    /// The parameter `ef_search_default`.
    pub closed spec fn spec_ef_search_default(self) -> u32 {
        self.ef_search_default
    }

    /// Every parameter is in its domain.
    pub open spec fn valid(self) -> bool {
        param_fault(
            self.spec_m(),
            self.spec_m_max0(),
            self.spec_ef_construction(),
            self.spec_ef_search_default(),
        ) is None
    }

    #[verifier::type_invariant]
    spec fn in_domain(self) -> bool {
        &&& 2 <= self.m <= self.m_max0
        &&& self.m <= self.ef_construction
        &&& self.m <= self.ef_search_default
    }

    /// Validates and constructs: `M >= 2`, `M_max0 >= M`,
    /// `ef_construction >= M`, `ef_search_default >= M`.
    pub fn new(m: u16, m_max0: u16, ef_construction: u32, ef_search_default: u32) -> (r: Result<
        Self,
        HnswError,
    >)
        ensures
            match param_fault(m, m_max0, ef_construction, ef_search_default) {
                Some(f) => r == Err::<Self, HnswError>(
                    HnswError::InvalidParams(Reason::Params(f)),
                ),
                None => r matches Ok(p) && p.spec_m() == m && p.spec_m_max0() == m_max0
                    && p.spec_ef_construction() == ef_construction && p.spec_ef_search_default()
                    == ef_search_default,
            },
    {
        if m < 2 {
            return Err(HnswError::InvalidParams(Reason::Params(ParamFault::MBelowTwo { m })));
        }
        if m_max0 < m {
            return Err(
                HnswError::InvalidParams(Reason::Params(ParamFault::MMax0BelowM { m_max0, m })),
            );
        }
        if ef_construction < m as u32 {
            return Err(
                HnswError::InvalidParams(
                    Reason::Params(ParamFault::EfConstructionBelowM { ef: ef_construction, m }),
                ),
            );
        }
        if ef_search_default < m as u32 {
            return Err(
                HnswError::InvalidParams(
                    Reason::Params(ParamFault::EfSearchBelowM { ef: ef_search_default, m }),
                ),
            );
        }
        Ok(HnswParams { m, m_max0, ef_construction, ef_search_default })
    }

    /// Maximum out-edges per node on every layer but the lowest.
    pub fn m(&self) -> (r: u16)
        ensures
            r == self.spec_m(),
            self.valid(),
    {
        proof {
            use_type_invariant(self);
        }
        self.m
    }

    /// Maximum out-edges per node on layer 0.
    pub fn m_max0(&self) -> (r: u16)
        ensures
            r == self.spec_m_max0(),
            self.valid(),
    {
        proof {
            use_type_invariant(self);
        }
        self.m_max0
    }

    /// Construction-time candidate pool size.
    pub fn ef_construction(&self) -> (r: u32)
        ensures
            r == self.spec_ef_construction(),
            self.valid(),
    {
        proof {
            use_type_invariant(self);
        }
        self.ef_construction
    }

    /// Query-time default beam width. `ef_search_default >= M` constrains
    /// this default only: a query may ask for a narrower beam.
    pub fn ef_search_default(&self) -> (r: u32)
        ensures
            r == self.spec_ef_search_default(),
            self.valid(),
    {
        proof {
            use_type_invariant(self);
        }
        self.ef_search_default
    }
}

impl Default for HnswParams {
    /// `M = 16`, `M_max0 = 32`, `ef_construction = 200`,
    /// `ef_search_default = 64`.
    fn default() -> (p: Self)
        ensures
            p.spec_m() == 16,
            p.spec_m_max0() == 32,
            p.spec_ef_construction() == 200,
            p.spec_ef_search_default() == 64,
    {
        HnswParams { m: 16, m_max0: 32, ef_construction: 200, ef_search_default: 64 }
    }
}

} // verus!
