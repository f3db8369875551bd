//! The one place where log records and caller inputs are validated.
//!
//! Replay and the write path both validate here and then call the primitives
//! of [`crate::apply`], which never validate again. The checks are those that
//! one page and one record decide; what depends on the directory belongs to
//! the audit.

use vstd::prelude::*;

use crate::error::HnswError;
use crate::fault::Reason;
use crate::fault::ValidateFault;
use crate::graph;
use crate::graph::Metric;
use crate::meta::MetaParams;
use crate::node::NodeGeometry;
use crate::rng;
use crate::storage;

verus! {

/// The parameters that records are validated against.
#[derive(Debug, Clone, Copy, PartialEq, Eq, Structural)]
pub struct MetaView {
    /// Vector dimension.
    pub dim: u16,
    /// Neighbor capacity of the upper levels, and base of the level draw.
    pub m: u16,
    /// Neighbor capacity of level 0.
    pub m_max0: u16,
    /// Distance metric.
    pub metric: Metric,
}

impl MetaView {
    /// The view of a set of parameters.
    pub open spec fn spec_of(p: MetaParams) -> MetaView {
        MetaView { dim: p.dim, m: p.m, m_max0: p.m_max0, metric: p.metric }
    }

    /// The view of a set of parameters.
    pub fn of(p: &MetaParams) -> (v: MetaView)
        ensures
            v == MetaView::spec_of(*p),
    {
        MetaView { dim: p.dim, m: p.m, m_max0: p.m_max0, metric: p.metric }
    }

    /// The highest level that a draw can give.
    pub fn l_max(&self) -> (r: u8)
        requires
            self.m >= 2,
        ensures
            r == rng::top_level(self.m as nat),
    {
        rng::l_max(self.m)
    }

    /// The geometry of node entries with these parameters.
    pub open spec fn geometry(self) -> NodeGeometry {
        NodeGeometry { dim: self.dim, m: self.m, m_max0: self.m_max0 }
    }

    /// The geometry of node entries with these parameters.
    pub fn node_geometry(&self) -> (geo: NodeGeometry)
        ensures
            geo == self.geometry(),
    {
        NodeGeometry { dim: self.dim, m: self.m, m_max0: self.m_max0 }
    }

    /// How many neighbors a node can have on `level`.
    pub open spec fn capacity(self, level: u8) -> int {
        if level == 0 {
            self.m_max0 as int
        } else {
            self.m as int
        }
    }

    /// How many neighbors a node can have on `level`.
    pub fn level_capacity(&self, level: u8) -> (r: usize)
        ensures
            r == self.capacity(level),
    {
        if level == 0 {
            self.m_max0 as usize
        } else {
            self.m as usize
        }
    }
}

/// What [`validate_node_init`] answers; the checks in this order.
pub open spec fn node_init_check(
    meta: MetaView,
    dim: u16,
    level: u8,
    vector: Seq<u32>,
) -> Result<(), HnswError> {
    let l_max = rng::top_level(meta.m as nat) as u8;
    if dim != meta.dim {
        Err(
            HnswError::InvalidArgument(
                Reason::Validate(ValidateFault::NodeDim { dim, meta_dim: meta.dim }),
            ),
        )
    } else if vector.len() != dim {
        Err(
            HnswError::InvalidArgument(
                Reason::Validate(ValidateFault::VectorLen { len: vector.len() as usize, dim }),
            ),
        )
    } else if level > l_max {
        Err(HnswError::InvalidArgument(Reason::Validate(ValidateFault::Level { level, l_max })))
    } else if !graph::all_finite(vector) {
        Err(
            HnswError::InvalidArgument(
                Reason::Validate(
                    ValidateFault::NonFinite { index: graph::first_nonfinite(vector) as usize },
                ),
            ),
        )
    } else if meta.metric == Metric::Cosine {
        graph::vector_check(Metric::Cosine, vector)
    } else {
        Ok(())
    }
}

/// Validates a new node entry: the index's dimension, a level that a draw can
/// give, finite components and, for the cosine, a vector that is not zero.
pub fn validate_node_init(meta: &MetaView, dim: u16, level: u8, vector: &[u32]) -> (r: Result<
    (),
    HnswError,
>)
    requires
        meta.m >= 2,
    ensures
        r == node_init_check(*meta, dim, level, vector@),
{
    if dim != meta.dim {
        return Err(
            HnswError::InvalidArgument(
                Reason::Validate(ValidateFault::NodeDim { dim, meta_dim: meta.dim }),
            ),
        );
    }
    if vector.len() != dim as usize {
        return Err(
            HnswError::InvalidArgument(
                Reason::Validate(ValidateFault::VectorLen { len: vector.len(), dim }),
            ),
        );
    }
    let l_max: u8 = meta.l_max();
    if level > l_max {
        return Err(
            HnswError::InvalidArgument(Reason::Validate(ValidateFault::Level { level, l_max })),
        );
    }
    match graph::find_nonfinite(vector) {
        Some(index) => {
            return Err(
                HnswError::InvalidArgument(Reason::Validate(ValidateFault::NonFinite { index })),
            );
        },
        None => {},
    }
    if meta.metric == Metric::Cosine {
        return Metric::Cosine.check_vector(vector);
    }
    Ok(())
}

/// What [`validate_set_neighbors`] answers; the checks in this order.
pub open spec fn set_neighbors_check(
    meta: MetaView,
    owner: u32,
    level: u8,
    count: u16,
    content: Seq<u32>,
    top: u8,
) -> Result<(), HnswError> {
    let cap = meta.capacity(level);
    if count != content.len() {
        Err(
            HnswError::InvalidArgument(
                Reason::Validate(ValidateFault::Count { count, len: content.len() as usize }),
            ),
        )
    } else if content.len() > cap {
        Err(
            HnswError::InvalidArgument(
                Reason::Validate(
                    ValidateFault::Capacity {
                        len: content.len() as usize,
                        cap: cap as usize,
                        level,
                    },
                ),
            ),
        )
    } else if level > top {
        Err(
            HnswError::InvalidArgument(
                Reason::Validate(ValidateFault::TopLevel { level, top }),
            ),
        )
    } else if !storage::ascending(content) {
        Err(HnswError::InvalidArgument(Reason::Validate(ValidateFault::NotAscending)))
    } else if content.contains(owner) {
        Err(HnswError::InvalidArgument(Reason::Validate(ValidateFault::SelfLoop { owner })))
    } else {
        Ok(())
    }
}

/// Validates a neighbor list: as long as it says, within the level's
/// capacity, on a level that the entry has, strictly ascending, and without
/// its owner.
pub fn validate_set_neighbors(
    meta: &MetaView,
    owner_node_id: u32,
    level: u8,
    count: u16,
    content: &[u32],
    entry_top_level: u8,
) -> (r: Result<(), HnswError>)
    ensures
        r == set_neighbors_check(*meta, owner_node_id, level, count, content@, entry_top_level),
{
    if count as usize != content.len() {
        return Err(
            HnswError::InvalidArgument(
                Reason::Validate(ValidateFault::Count { count, len: content.len() }),
            ),
        );
    }
    let cap: usize = meta.level_capacity(level);
    if content.len() > cap {
        return Err(
            HnswError::InvalidArgument(
                Reason::Validate(ValidateFault::Capacity { len: content.len(), cap, level }),
            ),
        );
    }
    if level > entry_top_level {
        return Err(
            HnswError::InvalidArgument(
                Reason::Validate(ValidateFault::TopLevel { level, top: entry_top_level }),
            ),
        );
    }
    if !storage::is_ascending(content) {
        return Err(HnswError::InvalidArgument(Reason::Validate(ValidateFault::NotAscending)));
    }
    if storage::holds(content, owner_node_id) {
        return Err(
            HnswError::InvalidArgument(
                Reason::Validate(ValidateFault::SelfLoop { owner: owner_node_id }),
            ),
        );
    }
    Ok(())
}

/// What [`validate_state_dim`] answers.
pub open spec fn state_dim_check(meta: MetaView, dim: u16, what: &'static str) -> Result<
    (),
    HnswError,
> {
    if dim != meta.dim {
        Err(
            HnswError::InvalidArgument(
                Reason::Validate(ValidateFault::StateDim { what, dim, meta_dim: meta.dim }),
            ),
        )
    } else {
        Ok(())
    }
}

/// Checks that a record locates the state byte where the index has it. This
/// gate runs before the bit is flipped: afterwards nothing would show where
/// the wrong bit came from.
pub fn validate_state_dim(meta: &MetaView, dim: u16, what: &'static str) -> (r: Result<
    (),
    HnswError,
>)
    ensures
        r == state_dim_check(*meta, dim, what),
{
    if dim != meta.dim {
        return Err(
            HnswError::InvalidArgument(
                Reason::Validate(ValidateFault::StateDim { what, dim, meta_dim: meta.dim }),
            ),
        );
    }
    Ok(())
}

} // verus!
