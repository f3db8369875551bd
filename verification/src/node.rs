//! The byte layout of a node entry.
//!
//! ```text
//! entry := vector:f32[dim] | state:u8 | per-level { count:u16 | neighbors:u32[cap] }
//! state := top_level:6 (bits 0-5) | live:1 (bit 6) | tombstone:1 (bit 7)
//! cap(level 0) = m_max0, cap(level > 0) = m
//! ```
//!
//! Every level's region is fully reserved: only the first `count` ids are in
//! use and the rest stay zero, so an entry never moves or grows.

use vstd::prelude::*;

use crate::error::HnswError;
use crate::fault::GeometryFault;
use crate::fault::Reason;
use crate::rng;

verus! {

/// State byte, live bit.
pub const STATE_LIVE_BIT: u8 = 0x40;

/// State byte, tombstone bit.
pub const STATE_TOMBSTONE_BIT: u8 = 0x80;

/// Bytes that a page has for one entry: the page less its header and one
/// line pointer.
pub const NODE_PAGE_USABLE: usize = 8156;

/// What fixes an entry's size: the vector's dimension and the two neighbor
/// capacities.
#[derive(Debug, Clone, Copy, PartialEq, Eq, Structural)]
pub struct NodeGeometry {
    /// Vector dimension.
    pub dim: u16,
    /// Neighbor capacity of the upper levels.
    pub m: u16,
    /// Neighbor capacity of level 0.
    pub m_max0: u16,
}

/// Bytes of a neighbor region with room for `cap` ids.
pub open spec fn region_size(cap: u16) -> int {
    2 + 4 * cap
}

impl NodeGeometry {
    /// Bytes of an entry with `top` upper levels.
    pub open spec fn size(self, top: u8) -> int {
        4 * self.dim + 1 + region_size(self.m_max0) + top * region_size(self.m)
    }

    /// Where a level's neighbor region starts in an entry.
    pub open spec fn region_at(self, level: u8) -> int {
        if level == 0 {
            4 * self.dim + 1
        } else {
            4 * self.dim + 1 + region_size(self.m_max0) + (level - 1) * region_size(self.m)
        }
    }

    /// How many ids a level's region has room for.
    pub open spec fn cap(self, level: u8) -> u16 {
        if level == 0 {
            self.m_max0
        } else {
            self.m
        }
    }

    /// Fixed size of an entry with `top_level` upper levels.
    pub fn entry_size(&self, top_level: u8) -> (r: usize)
        ensures
            r == self.size(top_level),
    {
        entry_size(self.dim, self.m, self.m_max0, top_level)
    }
}

/// Whether the live bit is set.
pub open spec fn state_live(b: u8) -> bool {
    b / 0x40 % 2 == 1
}

/// Whether the tombstone bit is set.
pub open spec fn state_tombstoned(b: u8) -> bool {
    b / 0x80 == 1
}

/// The top level in a state byte.
pub open spec fn state_top(b: u8) -> u8 {
    b % 0x40
}

/// The state byte with the live bit set.
pub open spec fn live_state(b: u8) -> u8 {
    if state_live(b) {
        b
    } else {
        (b + 0x40) as u8
    }
}

/// The state byte with the tombstone bit set.
pub open spec fn tombstone_state(b: u8) -> u8 {
    if state_tombstoned(b) {
        b
    } else {
        (b + 0x80) as u8
    }
}

/// The live bit and the tombstone bit are independent, and neither is part
/// of the top level.
pub proof fn lemma_state_bits_are_independent(b: u8)
    ensures
        state_live(live_state(b)),
        state_tombstoned(live_state(b)) == state_tombstoned(b),
        state_top(live_state(b)) == state_top(b),
        state_tombstoned(tombstone_state(b)),
        state_live(tombstone_state(b)) == state_live(b),
        state_top(tombstone_state(b)) == state_top(b),
        live_state(live_state(b)) == live_state(b),
        tombstone_state(tombstone_state(b)) == tombstone_state(b),
{
}

/// Sets the live bit.
pub fn set_live(b: u8) -> (r: u8)
    ensures
        r == live_state(b),
{
    assert(b | 0x40 == (if b / 0x40 % 2 == 1 {
        b
    } else {
        (b + 0x40) as u8
    })) by (bit_vector);
    b | STATE_LIVE_BIT
}

/// Sets the tombstone bit.
pub fn set_tombstone(b: u8) -> (r: u8)
    ensures
        r == tombstone_state(b),
{
    assert(b | 0x80 == (if b / 0x80 == 1 {
        b
    } else {
        (b + 0x80) as u8
    })) by (bit_vector);
    b | STATE_TOMBSTONE_BIT
}

/// Whether the live bit is set.
pub fn is_live(b: u8) -> (r: bool)
    ensures
        r == state_live(b),
{
    assert((b & 0x40 != 0) == (b / 0x40 % 2 == 1)) by (bit_vector);
    b & STATE_LIVE_BIT != 0
}

/// Whether the tombstone bit is set.
pub fn is_tombstoned(b: u8) -> (r: bool)
    ensures
        r == state_tombstoned(b),
{
    assert((b & 0x80 != 0) == (b / 0x80 == 1)) by (bit_vector);
    b & STATE_TOMBSTONE_BIT != 0
}

/// The top level in a state byte.
pub fn top_level_bits(b: u8) -> (r: u8)
    ensures
        r == state_top(b),
{
    assert(b & 0x3f == b % 0x40) by (bit_vector);
    b & 0x3f
}

/// The sizes and offsets of an entry are those of its geometry, and small.
pub proof fn lemma_sizes(geo: NodeGeometry, level: u8)
    ensures
        0 <= level * region_size(geo.m) <= 255 * 262142,
        level >= 1 ==> geo.size(level) == geo.region_at(level) + region_size(geo.m),
        geo.size(0) == geo.region_at(0) + region_size(geo.m_max0),
        0 < geo.region_at(level),
        geo.region_at(level) <= geo.size(level) < 0x1000_0000,
{
    let s = region_size(geo.m);
    assert(0 <= level * s <= 255 * 262142) by (nonlinear_arith)
        requires
            0 <= level <= 255,
            0 <= s <= 262142,
    ;
    if level >= 1 {
        assert(level * s == (level - 1) * s + s) by (nonlinear_arith);
        assert(0 <= (level - 1) * s) by (nonlinear_arith)
            requires
                1 <= level,
                0 <= s,
        ;
    }
    assert(0 * s == 0) by (nonlinear_arith);
}

/// A taller entry is larger.
pub proof fn lemma_size_monotone(geo: NodeGeometry, a: u8, b: u8)
    requires
        a <= b,
    ensures
        geo.size(a) <= geo.size(b),
{
    let s = region_size(geo.m);
    assert(a * s <= b * s) by (nonlinear_arith)
        requires
            a <= b,
            0 <= s,
    ;
}

/// Fixed size of an entry with `top_level` upper levels:
/// `4*dim + 1 + (2 + 4*m_max0) + top_level*(2 + 4*m)`.
pub fn entry_size(dim: u16, m: u16, m_max0: u16, top_level: u8) -> (r: usize)
    ensures
        r == (NodeGeometry { dim, m, m_max0 }).size(top_level),
{
    proof {
        lemma_sizes(NodeGeometry { dim, m, m_max0 }, top_level);
    }
    4 * dim as usize + 1 + level_region_size(m_max0) + top_level as usize * level_region_size(m)
}

/// Reserved bytes of one level's neighbor region.
pub fn level_region_size(cap: u16) -> (r: usize)
    ensures
        r == region_size(cap),
{
    2 + 4 * cap as usize
}

/// Where the region of an upper level starts in an entry.
pub fn level_offset(dim: u16, m: u16, m_max0: u16, level: u8) -> (r: usize)
    requires
        level >= 1,
    ensures
        r == (NodeGeometry { dim, m, m_max0 }).region_at(level),
{
    proof {
        lemma_sizes(NodeGeometry { dim, m, m_max0 }, (level - 1) as u8);
    }
    4 * dim as usize + 1 + level_region_size(m_max0) + (level - 1) as usize * level_region_size(m)
}

/// Where the region of level 0 starts in an entry.
pub fn level_base_offset(dim: u16) -> (r: usize)
    ensures
        r == 4 * dim + 1,
{
    4 * dim as usize + 1
}

/// Where the state byte stands in an entry.
pub fn state_offset(dim: u16) -> (r: usize)
    ensures
        r == 4 * dim,
{
    4 * dim as usize
}

/// Where a level's region starts in an entry, and its capacity.
pub fn level_region_pos(geo: NodeGeometry, level: u8) -> (r: (usize, u16))
    ensures
        r.0 == geo.region_at(level),
        r.1 == geo.cap(level),
        r.0 < 0x1000_0000,
{
    proof {
        lemma_sizes(geo, level);
    }
    if level == 0 {
        (level_base_offset(geo.dim), geo.m_max0)
    } else {
        (level_offset(geo.dim, geo.m, geo.m_max0, level), geo.m)
    }
}

/// Why no page can hold every entry of this geometry, if so: the worst entry
/// has as many levels as a draw can give.
pub open spec fn geometry_check(dim: u16, m: u16, m_max0: u16) -> Result<(), HnswError> {
    let l_max = rng::top_level(m as nat) as u8;
    let worst = NodeGeometry { dim, m, m_max0 }.size(l_max);
    if dim == 0 {
        Err(HnswError::InvalidArgument(Reason::Geometry(GeometryFault::DimZero)))
    } else if worst > NODE_PAGE_USABLE {
        Err(
            HnswError::InvalidArgument(
                Reason::Geometry(
                    GeometryFault::TooLarge { dim, m, m_max0, l_max, worst: worst as usize },
                ),
            ),
        )
    } else {
        Ok(())
    }
}

/// Checks that every entry of this geometry fits one page.
pub fn check_creation_geometry(dim: u16, m: u16, m_max0: u16) -> (r: Result<(), HnswError>)
    requires
        m >= 2,
    ensures
        r == geometry_check(dim, m, m_max0),
{
    if dim == 0 {
        return Err(HnswError::InvalidArgument(Reason::Geometry(GeometryFault::DimZero)));
    }
    let l_max: u8 = rng::l_max(m);
    let worst: usize = entry_size(dim, m, m_max0, l_max);
    if worst > NODE_PAGE_USABLE {
        return Err(
            HnswError::InvalidArgument(
                Reason::Geometry(GeometryFault::TooLarge { dim, m, m_max0, l_max, worst }),
            ),
        );
    }
    Ok(())
}

/// Where the creation check passes, an entry of any level that a draw can
/// give fits one empty page.
pub proof fn lemma_created_entries_fit(dim: u16, m: u16, m_max0: u16, level: u8)
    requires
        m >= 2,
        geometry_check(dim, m, m_max0) is Ok,
        level <= rng::top_level(m as nat),
    ensures
        (NodeGeometry { dim, m, m_max0 }).size(level) <= NODE_PAGE_USABLE,
{
    rng::lemma_top_level_bound(m as nat);
    lemma_size_monotone(NodeGeometry { dim, m, m_max0 }, level, rng::top_level(m as nat) as u8);
}

} // verus!
