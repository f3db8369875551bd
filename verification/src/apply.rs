//! The primitives that put a record's content on a page.
//!
//! One primitive per record kind, shared by replay and by the write path,
//! and the accessors that read the content back. The primitives apply: the
//! rules of a record are checked in [`crate::validate`]. What they do guard
//! is the page itself, whose bytes carry no checksum: an application that
//! the page cannot take is an error and leaves the page as it was.

use vstd::prelude::*;

use vstd::slice::slice_subrange;

use crate::bytes;
use crate::dir;
use crate::error::HnswError;
use crate::fault::ApplyFault;
use crate::fault::DirFault;
use crate::fault::Reason;
use crate::meta;
use crate::node;
use crate::node::NodeGeometry;
use crate::page;
use crate::storage;
use crate::storage::Page;
use crate::storage::PageId;
use crate::storage::PAGE_SIZE;

verus! {

// ---------------------------------------------------------------------
// Line pointers.
// ---------------------------------------------------------------------

/// The offset and the length of the entry in `slot`: none unless the header
/// is that of a slotted page, the slot is below `pd_lower`, and the entry
/// lies in the tuple area `[pd_upper, pd_special)`.
pub open spec fn lp(p: Seq<u8>, slot: u16) -> Option<(u16, u16)> {
    let lower = storage::pd_lower(p);
    let upper = storage::pd_upper(p);
    let special = storage::pd_special(p);
    let at = 32 + 4 * slot;
    let raw = bytes::le32(p, at);
    if !(32 <= lower <= PAGE_SIZE) || (lower - 32) % 4 != 0 {
        None
    } else if upper < lower || upper > special || special > PAGE_SIZE {
        None
    } else if at + 4 > lower {
        None
    } else if !storage::lp_normal(raw) {
        None
    } else if storage::lp_off(raw) < upper || storage::lp_off(raw) + storage::lp_len(raw)
        > special {
        None
    } else {
        Some((storage::lp_off(raw), storage::lp_len(raw)))
    }
}

/// Reads the line pointer of `slot`.
pub fn read_lp(page: &Page, slot: u16) -> (r: Option<(u16, u16)>)
    ensures
        r == lp(page@, slot),
{
    let lower: usize = pd_lower(page) as usize;
    if lower < 32 || lower > PAGE_SIZE || (lower - 32) % 4 != 0 {
        return None;
    }
    let upper: usize = pd_upper(page) as usize;
    let special: usize = pd_special(page) as usize;
    if upper < lower || upper > special || special > PAGE_SIZE {
        return None;
    }
    let at: usize = 32 + 4 * slot as usize;
    if at + 4 > lower {
        return None;
    }
    let (off, len, normal) = storage::decode_line_pointer(bytes::get_u32(page, at));
    if !normal {
        return None;
    }
    if (off as usize) < upper || off as usize + len as usize > special {
        return None;
    }
    Some((off, len))
}

/// Writes the line pointer of `slot`.
pub fn write_lp(page: &mut Page, slot: u16, off: u16, len: u16)
    requires
        32 + 4 * slot + 4 <= PAGE_SIZE,
    ensures
        final(page)@ == bytes::splice(
            old(page)@,
            32 + 4 * slot,
            bytes::u32_le(storage::line_pointer(off, len)),
        ),
{
    let raw: [u8; 4] = storage::encode_line_pointer(off, len);
    let at: usize = 32 + 4 * slot as usize;
    page[at] = raw[0];
    page[at + 1] = raw[1];
    page[at + 2] = raw[2];
    page[at + 3] = raw[3];
    assert(page@ =~= bytes::splice(
        old(page)@,
        32 + 4 * slot,
        bytes::u32_le(storage::line_pointer(off, len)),
    ));
}

/// Reads where the line-pointer array ends.
pub fn pd_lower(page: &Page) -> (r: u16)
    ensures
        r == storage::pd_lower(page@),
{
    bytes::get_u16(page, 14)
}

/// Reads where the entries start.
pub fn pd_upper(page: &Page) -> (r: u16)
    ensures
        r == storage::pd_upper(page@),
{
    bytes::get_u16(page, 16)
}

/// Reads where the entries end.
pub fn pd_special(page: &Page) -> (r: u16)
    ensures
        r == storage::pd_special(page@),
{
    bytes::get_u16(page, 18)
}

/// Writes where the line-pointer array ends.
pub fn set_pd_lower(page: &mut Page, v: u16)
    ensures
        final(page)@ == bytes::splice(old(page)@, 14, bytes::u16_le(v)),
{
    bytes::put_u16(page, 14, v);
}

/// Writes where the entries start.
pub fn set_pd_upper(page: &mut Page, v: u16)
    ensures
        final(page)@ == bytes::splice(old(page)@, 16, bytes::u16_le(v)),
{
    bytes::put_u16(page, 16, v);
}

// ---------------------------------------------------------------------
// What an entry holds.
// ---------------------------------------------------------------------

/// The error for a slot without an entry.
pub open spec fn no_entry(what: &'static str, slot: u16) -> HnswError {
    HnswError::Corrupted(Reason::Apply(ApplyFault::NotLive { what, slot }))
}

/// The bytes of the entry in `slot`.
pub open spec fn entry_of(p: Seq<u8>, slot: u16, what: &'static str) -> Result<
    Seq<u8>,
    HnswError,
> {
    match lp(p, slot) {
        None => Err(no_entry(what, slot)),
        Some((off, len)) => Ok(p.subrange(off as int, off + len)),
    }
}

/// The state byte of an entry.
pub open spec fn state_in(e: Seq<u8>, dim: u16, what: &'static str) -> Result<u8, HnswError> {
    if 4 * dim < e.len() {
        Ok(e[4 * dim])
    } else {
        Err(
            HnswError::Corrupted(
                Reason::Apply(
                    ApplyFault::State { what, at: (4 * dim) as usize, len: e.len() as usize },
                ),
            ),
        )
    }
}

/// The state byte of the entry in `slot`.
pub open spec fn state_of(p: Seq<u8>, slot: u16, dim: u16, what: &'static str) -> Result<
    u8,
    HnswError,
> {
    match entry_of(p, slot, what) {
        Err(e) => Err(e),
        Ok(b) => state_in(b, dim, what),
    }
}

/// The bytes of a level's neighbor region in an entry.
pub open spec fn region_in(e: Seq<u8>, geo: NodeGeometry, level: u8, what: &'static str) -> Result<
    Seq<u8>,
    HnswError,
> {
    let from = geo.region_at(level);
    let to = from + node::region_size(geo.cap(level));
    if to > e.len() {
        Err(
            HnswError::Corrupted(
                Reason::Apply(
                    ApplyFault::Region {
                        what,
                        level,
                        from: from as usize,
                        to: to as usize,
                        len: e.len() as usize,
                    },
                ),
            ),
        )
    } else {
        Ok(e.subrange(from, to))
    }
}

/// The number of neighbors in a region.
pub open spec fn count_in(region: Seq<u8>, geo: NodeGeometry, level: u8, what: &'static str) -> Result<
    u16,
    HnswError,
> {
    let count = bytes::le16(region, 0);
    let cap = geo.cap(level);
    if count > cap {
        Err(
            HnswError::Corrupted(
                Reason::Apply(ApplyFault::Count { what, count: count as usize, cap, level }),
            ),
        )
    } else {
        Ok(count)
    }
}

/// The neighbors on a level of an entry.
pub open spec fn neighbors_in(e: Seq<u8>, geo: NodeGeometry, level: u8, what: &'static str) -> Result<
    Seq<u32>,
    HnswError,
> {
    match region_in(e, geo, level, what) {
        Err(f) => Err(f),
        Ok(region) => match count_in(region, geo, level, what) {
            Err(f) => Err(f),
            Ok(count) => Ok(bytes::words_at(region, 2, count as nat)),
        },
    }
}

/// The neighbors on a level of the entry in `slot`.
pub open spec fn neighbors_of(p: Seq<u8>, slot: u16, geo: NodeGeometry, level: u8) -> Result<
    Seq<u32>,
    HnswError,
> {
    match entry_of(p, slot, "neighbor_iter") {
        Err(e) => Err(e),
        Ok(b) => neighbors_in(b, geo, level, "neighbor_iter"),
    }
}

/// The vector of an entry.
pub open spec fn vector_in(e: Seq<u8>, dim: u16) -> Result<Seq<u32>, HnswError> {
    if e.len() < 4 * dim {
        Err(
            HnswError::Corrupted(
                Reason::Apply(ApplyFault::VectorWidth { dim, len: e.len() as usize }),
            ),
        )
    } else {
        Ok(bytes::words_at(e, 0, dim as nat))
    }
}

/// The vector of the entry in `slot`.
pub open spec fn vector_of(p: Seq<u8>, slot: u16, dim: u16) -> Result<Seq<u32>, HnswError> {
    match entry_of(p, slot, "vector_iter") {
        Err(e) => Err(e),
        Ok(b) => vector_in(b, dim),
    }
}

/// The bytes of the entry in `slot`.
fn entry_at<'a>(page: &'a Page, slot: u16, what: &'static str) -> (r: Result<&'a [u8], HnswError>)
    ensures
        match entry_of(page@, slot, what) {
            Ok(b) => r matches Ok(e) && e@ == b,
            Err(f) => r == Err::<&[u8], HnswError>(f),
        },
{
    match read_lp(page, slot) {
        None => Err(HnswError::Corrupted(Reason::Apply(ApplyFault::NotLive { what, slot }))),
        Some((off, len)) => Ok(slice_subrange(page, off as usize, off as usize + len as usize)),
    }
}

/// The state byte of an entry.
fn state_byte(entry: &[u8], dim: u16, what: &'static str) -> (r: Result<u8, HnswError>)
    ensures
        r == state_in(entry@, dim, what),
{
    let at: usize = node::state_offset(dim);
    if at < entry.len() {
        Ok(entry[at])
    } else {
        Err(
            HnswError::Corrupted(
                Reason::Apply(ApplyFault::State { what, at, len: entry.len() }),
            ),
        )
    }
}

/// Where a level's region lies in an entry of `len` bytes.
fn checked_region(len: usize, geo: NodeGeometry, level: u8, what: &'static str) -> (r: Result<
    (usize, usize),
    HnswError,
>)
    ensures
        ({
            let from = geo.region_at(level);
            let to = from + node::region_size(geo.cap(level));
            r == (if to > len {
                Err::<(usize, usize), HnswError>(
                    HnswError::Corrupted(
                        Reason::Apply(
                            ApplyFault::Region {
                                what,
                                level,
                                from: from as usize,
                                to: to as usize,
                                len,
                            },
                        ),
                    ),
                )
            } else {
                Ok((from as usize, to as usize))
            })
        }),
        r matches Ok(b) ==> b.0 == geo.region_at(level) && b.1 == b.0 + node::region_size(
            geo.cap(level),
        ) && b.1 <= len,
{
    let (from, cap) = node::level_region_pos(geo, level);
    let to: usize = from + node::level_region_size(cap);
    if to > len {
        return Err(
            HnswError::Corrupted(Reason::Apply(ApplyFault::Region { what, level, from, to, len })),
        );
    }
    Ok((from, to))
}

/// The number of neighbors in a region, which is at most the capacity.
fn checked_count(region: &[u8], geo: NodeGeometry, level: u8, what: &'static str) -> (r: Result<
    u16,
    HnswError,
>)
    requires
        region@.len() >= 2,
    ensures
        r == count_in(region@, geo, level, what),
{
    let (_, cap) = node::level_region_pos(geo, level);
    let count: u16 = bytes::get_u16(region, 0);
    if count > cap {
        return Err(
            HnswError::Corrupted(
                Reason::Apply(ApplyFault::Count { what, count: count as usize, cap, level }),
            ),
        );
    }
    Ok(count)
}

/// The entry's top level.
pub fn entry_top_level(node_page: &Page, slot: u16, dim: u16) -> (r: Result<u8, HnswError>)
    ensures
        r == (match state_of(node_page@, slot, dim, "entry_top_level") {
            Err(e) => Err::<u8, HnswError>(e),
            Ok(b) => Ok(node::state_top(b)),
        }),
{
    match entry_at(node_page, slot, "entry_top_level") {
        Err(e) => Err(e),
        Ok(entry) => match state_byte(entry, dim, "entry_top_level") {
            Err(e) => Err(e),
            Ok(b) => Ok(node::top_level_bits(b)),
        },
    }
}

/// Whether the entry is live.
pub fn entry_is_live(node_page: &Page, slot: u16, dim: u16) -> (r: Result<bool, HnswError>)
    ensures
        r == (match state_of(node_page@, slot, dim, "entry_is_live") {
            Err(e) => Err::<bool, HnswError>(e),
            Ok(b) => Ok(node::state_live(b)),
        }),
{
    match entry_at(node_page, slot, "entry_is_live") {
        Err(e) => Err(e),
        Ok(entry) => match state_byte(entry, dim, "entry_is_live") {
            Err(e) => Err(e),
            Ok(b) => Ok(node::is_live(b)),
        },
    }
}

/// Whether the entry is tombstoned.
pub fn entry_is_tombstoned(node_page: &Page, slot: u16, dim: u16) -> (r: Result<bool, HnswError>)
    ensures
        r == (match state_of(node_page@, slot, dim, "entry_is_tombstoned") {
            Err(e) => Err::<bool, HnswError>(e),
            Ok(b) => Ok(node::state_tombstoned(b)),
        }),
{
    match entry_at(node_page, slot, "entry_is_tombstoned") {
        Err(e) => Err(e),
        Ok(entry) => match state_byte(entry, dim, "entry_is_tombstoned") {
            Err(e) => Err(e),
            Ok(b) => Ok(node::is_tombstoned(b)),
        },
    }
}

/// A walk along a level's neighbors that copies nothing.
#[derive(Debug)]
pub struct NeighborIter<'a> {
    region: &'a [u8],
    next: usize,
    count: usize,
}

impl<'a> NeighborIter<'a> {
    /// The neighbors still to come.
    pub closed spec fn rest(&self) -> Seq<u32> {
        bytes::words_at(self.region@, 2 + 4 * self.next, (self.count - self.next) as nat)
    }

    #[verifier::type_invariant]
    spec fn in_bounds(self) -> bool {
        &&& self.next <= self.count
        &&& 2 + 4 * self.count <= self.region@.len() <= 0x1000_0000
    }

    /// The next neighbor.
    pub fn next(&mut self) -> (r: Option<u32>)
        ensures
            old(self).rest().len() == 0 ==> r is None && final(self).rest() == old(self).rest(),
            old(self).rest().len() > 0 ==> r == Some(old(self).rest()[0]) && final(self).rest()
                == old(self).rest().skip(1),
    {
        proof {
            use_type_invariant(&*self);
        }
        if self.next >= self.count {
            return None;
        }
        let at: usize = 2 + 4 * self.next;
        let x: u32 = bytes::get_u32(self.region, at);
        self.next = self.next + 1;
        assert(self.rest() =~= old(self).rest().skip(1));
        Some(x)
    }

    /// How many neighbors are still to come.
    pub fn len(&self) -> (n: usize)
        ensures
            n == self.rest().len(),
    {
        proof {
            use_type_invariant(self);
        }
        self.count - self.next
    }

    /// The neighbors still to come, as a list.
    pub fn collect(self) -> (w: Vec<u32>)
        ensures
            w@ == self.rest(),
    {
        proof {
            use_type_invariant(&self);
        }
        bytes::get_words(self.region, 2 + 4 * self.next, self.count - self.next)
    }
}

/// The neighbors on `level` of the entry in `slot`.
pub fn neighbor_iter<'a>(node_page: &'a Page, slot: u16, geo: NodeGeometry, level: u8) -> (r: Result<
    NeighborIter<'a>,
    HnswError,
>)
    ensures
        match neighbors_of(node_page@, slot, geo, level) {
            Ok(w) => r matches Ok(it) && it.rest() == w,
            Err(f) => r == Err::<NeighborIter<'a>, HnswError>(f),
        },
{
    let entry: &'a [u8] = match entry_at(node_page, slot, "neighbor_iter") {
        Err(e) => {
            return Err(e);
        },
        Ok(entry) => entry,
    };
    let (from, to) = match checked_region(entry.len(), geo, level, "neighbor_iter") {
        Err(e) => {
            return Err(e);
        },
        Ok(b) => b,
    };
    proof {
        node::lemma_sizes(geo, level);
    }
    let region: &'a [u8] = slice_subrange(entry, from, to);
    match checked_count(region, geo, level, "neighbor_iter") {
        Err(e) => Err(e),
        Ok(count) => {
            let it = NeighborIter { region, next: 0, count: count as usize };
            assert(it.rest() =~= bytes::words_at(region@, 2, count as nat));
            Ok(it)
        },
    }
}

/// The neighbors on `level` of the entry in `slot`, as a list.
pub fn entry_neighbors(node_page: &Page, slot: u16, geo: NodeGeometry, level: u8) -> (r: Result<
    Vec<u32>,
    HnswError,
>)
    ensures
        match neighbors_of(node_page@, slot, geo, level) {
            Ok(w) => r matches Ok(v) && v@ == w,
            Err(f) => r == Err::<Vec<u32>, HnswError>(f),
        },
{
    match neighbor_iter(node_page, slot, geo, level) {
        Err(e) => Err(e),
        Ok(it) => Ok(it.collect()),
    }
}

/// A walk along an entry's vector that copies nothing.
#[derive(Debug)]
pub struct VectorIter<'a> {
    entry: &'a [u8],
    next: usize,
    dim: usize,
}

impl<'a> VectorIter<'a> {
    /// The components still to come.
    pub closed spec fn rest(&self) -> Seq<u32> {
        bytes::words_at(self.entry@, 4 * self.next, (self.dim - self.next) as nat)
    }

    #[verifier::type_invariant]
    spec fn in_bounds(self) -> bool {
        &&& self.next <= self.dim <= 0xffff
        &&& 4 * self.dim <= self.entry@.len()
    }

    /// The next component.
    pub fn next(&mut self) -> (r: Option<u32>)
        ensures
            old(self).rest().len() == 0 ==> r is None && final(self).rest() == old(self).rest(),
            old(self).rest().len() > 0 ==> r == Some(old(self).rest()[0]) && final(self).rest()
                == old(self).rest().skip(1),
    {
        proof {
            use_type_invariant(&*self);
        }
        if self.next >= self.dim {
            return None;
        }
        let x: u32 = bytes::get_u32(self.entry, 4 * self.next);
        self.next = self.next + 1;
        assert(self.rest() =~= old(self).rest().skip(1));
        Some(x)
    }

    /// How many components are still to come.
    pub fn len(&self) -> (n: usize)
        ensures
            n == self.rest().len(),
    {
        proof {
            use_type_invariant(self);
        }
        self.dim - self.next
    }

    /// The components still to come, as a list.
    pub fn collect(self) -> (w: Vec<u32>)
        ensures
            w@ == self.rest(),
    {
        proof {
            use_type_invariant(&self);
        }
        bytes::get_words(self.entry, 4 * self.next, self.dim - self.next)
    }
}

/// The vector of the entry in `slot`.
pub fn vector_iter<'a>(node_page: &'a Page, slot: u16, dim: u16) -> (r: Result<
    VectorIter<'a>,
    HnswError,
>)
    ensures
        match vector_of(node_page@, slot, dim) {
            Ok(w) => r matches Ok(it) && it.rest() == w,
            Err(f) => r == Err::<VectorIter<'a>, HnswError>(f),
        },
{
    let entry: &'a [u8] = match entry_at(node_page, slot, "vector_iter") {
        Err(e) => {
            return Err(e);
        },
        Ok(entry) => entry,
    };
    if entry.len() < 4 * dim as usize {
        return Err(
            HnswError::Corrupted(
                Reason::Apply(ApplyFault::VectorWidth { dim, len: entry.len() }),
            ),
        );
    }
    let it = VectorIter { entry, next: 0, dim: dim as usize };
    assert(it.rest() =~= bytes::words_at(entry@, 0, dim as nat));
    Ok(it)
}

/// The vector of the entry in `slot`, as a list.
pub fn entry_vector(node_page: &Page, slot: u16, dim: u16) -> (r: Result<Vec<u32>, HnswError>)
    ensures
        match vector_of(node_page@, slot, dim) {
            Ok(w) => r matches Ok(v) && v@ == w,
            Err(f) => r == Err::<Vec<u32>, HnswError>(f),
        },
{
    match vector_iter(node_page, slot, dim) {
        Err(e) => Err(e),
        Ok(it) => Ok(it.collect()),
    }
}

/// Whether the slot holds an entry.
pub fn slot_is_occupied(node_page: &Page, slot: u16) -> (r: bool)
    ensures
        r == (lp(node_page@, slot) is Some),
{
    read_lp(node_page, slot).is_some()
}

// ---------------------------------------------------------------------
// Creating entries.
// ---------------------------------------------------------------------

/// The bounds of a slotted page's free space; `what` is being done.
pub open spec fn bounds(p: Seq<u8>, what: &'static str) -> Result<(usize, usize), HnswError> {
    let lower = storage::pd_lower(p) as usize;
    let upper = storage::pd_upper(p) as usize;
    let special = storage::pd_special(p) as usize;
    if lower < 32 || (lower - 32) % 4 != 0 || upper < lower || upper > PAGE_SIZE {
        Err(HnswError::Corrupted(Reason::Apply(ApplyFault::NotSlotted { what, lower, upper })))
    } else if special < upper || special > PAGE_SIZE {
        Err(HnswError::Corrupted(Reason::Apply(ApplyFault::Special { what, special, upper })))
    } else {
        Ok((lower, upper))
    }
}

/// The error for a page without room for an entry of `len` bytes.
pub open spec fn no_room(len: usize, free: usize) -> HnswError {
    HnswError::InvalidOperation(Reason::Apply(ApplyFault::NoRoom { len, free }))
}

/// The slot that [`select_slot`] gives.
pub open spec fn selected(p: Seq<u8>, len: usize) -> Result<u16, HnswError> {
    match bounds(p, "select_slot") {
        Err(e) => Err(e),
        Ok((lower, upper)) => if upper - lower < len + 4 {
            Err(no_room(len, (upper - lower) as usize))
        } else {
            Ok(((lower - 32) / 4) as u16)
        },
    }
}

/// The bytes of a fresh entry of `len` bytes: the vector, the top level in a
/// state byte that is neither live nor tombstoned, and no neighbor on any
/// level.
pub open spec fn fresh_entry(top_level: u8, vector: Seq<u32>, len: int) -> Seq<u8> {
    bytes::words_le(vector) + seq![top_level] + bytes::zeros((len - 4 * vector.len() - 1) as nat)
}

/// The error for a level that the state byte has no room for.
pub open spec fn top_level_fault(top_level: u8) -> HnswError {
    HnswError::Corrupted(Reason::Apply(ApplyFault::TopLevel { top_level }))
}

/// The page with a fresh entry over the one at `off`.
pub open spec fn overwritten(
    p: Seq<u8>,
    off: u16,
    top_level: u8,
    geo: NodeGeometry,
    vector: Seq<u32>,
) -> Seq<u8> {
    bytes::splice(p, off as int, fresh_entry(top_level, vector, geo.size(top_level)))
}

/// The page with a fresh entry in its free space and the line pointer of
/// `slot` to it.
pub open spec fn created(
    p: Seq<u8>,
    slot: u16,
    top_level: u8,
    geo: NodeGeometry,
    vector: Seq<u32>,
) -> Seq<u8> {
    let len = geo.size(top_level);
    let off = (storage::pd_upper(p) - len) as u16;
    let p1 = bytes::splice(p, off as int, fresh_entry(top_level, vector, len));
    let p2 = bytes::splice(
        p1,
        32 + 4 * slot,
        bytes::u32_le(storage::line_pointer(off, len as u16)),
    );
    let p3 = bytes::splice(p2, 14, bytes::u16_le((storage::pd_lower(p) + 4) as u16));
    bytes::splice(p3, 16, bytes::u16_le(off))
}

/// The page that [`apply_node_at`] leaves; the checks in this order.
pub open spec fn node_applied(
    p: Seq<u8>,
    slot: u16,
    top_level: u8,
    geo: NodeGeometry,
    vector: Seq<u32>,
) -> Result<Seq<u8>, HnswError> {
    let len = geo.size(top_level) as usize;
    if vector.len() != geo.dim {
        Err(
            HnswError::Corrupted(
                Reason::Apply(
                    ApplyFault::VectorLen { len: vector.len() as usize, dim: geo.dim },
                ),
            ),
        )
    } else {
        match bounds(p, "apply_node_at") {
            Err(e) => Err(e),
            Ok((lower, upper)) => match lp(p, slot) {
                Some((off, have)) => if have != len {
                    Err(
                        HnswError::Corrupted(
                            Reason::Apply(ApplyFault::EntryLen { slot, have, need: len }),
                        ),
                    )
                } else if node::state_live(p[off + 4 * geo.dim]) {
                    Err(HnswError::Corrupted(Reason::Apply(ApplyFault::AlreadyLive { slot })))
                } else if top_level > 63 {
                    Err(top_level_fault(top_level))
                } else {
                    Ok(overwritten(p, off, top_level, geo, vector))
                },
                None => {
                    let next = ((lower - 32) / 4) as u16;
                    if slot != next {
                        Err(HnswError::Corrupted(Reason::Apply(ApplyFault::Gap { slot, next })))
                    } else if upper - lower < len + 4 {
                        Err(no_room(len, (upper - lower) as usize))
                    } else if top_level > 63 {
                        Err(top_level_fault(top_level))
                    } else {
                        Ok(created(p, slot, top_level, geo, vector))
                    }
                },
            },
        }
    }
}

/// The slot that [`append_node`] gives and the page that it leaves.
pub open spec fn node_appended(
    p: Seq<u8>,
    top_level: u8,
    geo: NodeGeometry,
    vector: Seq<u32>,
) -> Result<(u16, Seq<u8>), HnswError> {
    match selected(p, geo.size(top_level) as usize) {
        Err(e) => Err(e),
        Ok(slot) => match node_applied(p, slot, top_level, geo, vector) {
            Err(e) => Err(e),
            Ok(q) => Ok((slot, q)),
        },
    }
}

/// The bounds of a slotted page's free space.
fn append_bounds(page: &Page, what: &'static str) -> (r: Result<(usize, usize), HnswError>)
    ensures
        r == bounds(page@, what),
        r matches Ok(b) ==> 32 <= b.0 <= b.1 <= PAGE_SIZE && (b.0 - 32) % 4 == 0 && b.0
            == storage::pd_lower(page@) && b.1 == storage::pd_upper(page@) && b.1
            <= storage::pd_special(page@) <= PAGE_SIZE,
{
    let lower: usize = pd_lower(page) as usize;
    let upper: usize = pd_upper(page) as usize;
    let special: usize = pd_special(page) as usize;
    if lower < 32 || (lower - 32) % 4 != 0 || upper < lower || upper > PAGE_SIZE {
        return Err(
            HnswError::Corrupted(Reason::Apply(ApplyFault::NotSlotted { what, lower, upper })),
        );
    }
    if special < upper || special > PAGE_SIZE {
        return Err(
            HnswError::Corrupted(Reason::Apply(ApplyFault::Special { what, special, upper })),
        );
    }
    Ok((lower, upper))
}

/// How many slots the page has.
pub fn slot_count(node_page: &Page) -> (r: Result<u16, HnswError>)
    ensures
        r == slots(node_page@),
{
    match append_bounds(node_page, "slot_count") {
        Err(e) => Err(e),
        Ok((lower, _)) => Ok(((lower - 32) / 4) as u16),
    }
}

/// How many slots the page has.
pub open spec fn slots(p: Seq<u8>) -> Result<u16, HnswError> {
    match bounds(p, "slot_count") {
        Err(e) => Err(e),
        Ok((lower, _)) => Ok(((lower - 32) / 4) as u16),
    }
}

/// Picks the slot that an entry of `len` bytes would take, and changes
/// nothing: the slot goes into the log record before the entry is written.
pub fn select_slot(node_page: &Page, len: usize) -> (r: Result<u16, HnswError>)
    ensures
        r == selected(node_page@, len),
{
    let (lower, upper) = match append_bounds(node_page, "select_slot") {
        Err(e) => {
            return Err(e);
        },
        Ok(b) => b,
    };
    let free: usize = upper - lower;
    if free < len || free - len < 4 {
        return Err(HnswError::InvalidOperation(Reason::Apply(ApplyFault::NoRoom { len, free })));
    }
    Ok(((lower - 32) / 4) as u16)
}

/// Writes a fresh entry at `off`.
fn write_entry(page: &mut Page, off: usize, len: usize, top_level: u8, vector: &[u32])
    requires
        off + len <= PAGE_SIZE,
        4 * vector@.len() < len,
    ensures
        final(page)@ == bytes::splice(
            old(page)@,
            off as int,
            fresh_entry(top_level, vector@, len as int),
        ),
{
    bytes::fill_zero(page, off, off + len);
    bytes::put_words(page, off, vector);
    page[off + 4 * vector.len()] = top_level;
    assert(page@ =~= bytes::splice(
        old(page)@,
        off as int,
        fresh_entry(top_level, vector@, len as int),
    ));
}

/// Writes the node entry at `slot`: creates it where `slot` is the next free
/// one, overwrites it where the entry there has not become live. Writing the
/// same entry again leaves the same page. A live entry, or a slot past the
/// next free one, does not match the record and is corrupt.
pub fn apply_node_at(
    node_page: &mut Page,
    slot: u16,
    node_id: u32,
    top_level: u8,
    geo: NodeGeometry,
    vector: &[u32],
) -> (r: Result<(), HnswError>)
    ensures
        match node_applied(old(node_page)@, slot, top_level, geo, vector@) {
            Ok(q) => r == Ok::<(), HnswError>(()) && final(node_page)@ == q,
            Err(e) => r == Err::<(), HnswError>(e) && final(node_page)@ == old(node_page)@,
        },
{
    if vector.len() != geo.dim as usize {
        return Err(
            HnswError::Corrupted(
                Reason::Apply(ApplyFault::VectorLen { len: vector.len(), dim: geo.dim }),
            ),
        );
    }
    proof {
        node::lemma_sizes(geo, top_level);
    }
    let len: usize = geo.entry_size(top_level);
    let (lower, upper) = match append_bounds(node_page, "apply_node_at") {
        Err(e) => {
            return Err(e);
        },
        Ok(b) => b,
    };
    let next: u16 = ((lower - 32) / 4) as u16;
    match read_lp(node_page, slot) {
        Some((off, have)) => {
            if have as usize != len {
                return Err(
                    HnswError::Corrupted(
                        Reason::Apply(ApplyFault::EntryLen { slot, have, need: len }),
                    ),
                );
            }
            if node::is_live(node_page[off as usize + node::state_offset(geo.dim)]) {
                return Err(
                    HnswError::Corrupted(Reason::Apply(ApplyFault::AlreadyLive { slot })),
                );
            }
            if top_level > 63 {
                return Err(
                    HnswError::Corrupted(Reason::Apply(ApplyFault::TopLevel { top_level })),
                );
            }
            write_entry(node_page, off as usize, len, top_level, vector);
        },
        None => {
            if slot != next {
                return Err(
                    HnswError::Corrupted(Reason::Apply(ApplyFault::Gap { slot, next })),
                );
            }
            if upper - lower < len + 4 {
                return Err(
                    HnswError::InvalidOperation(
                        Reason::Apply(ApplyFault::NoRoom { len, free: upper - lower }),
                    ),
                );
            }
            if top_level > 63 {
                return Err(
                    HnswError::Corrupted(Reason::Apply(ApplyFault::TopLevel { top_level })),
                );
            }
            let off: u16 = (upper - len) as u16;
            write_entry(node_page, off as usize, len, top_level, vector);
            write_lp(node_page, slot, off, len as u16);
            set_pd_lower(node_page, (lower + 4) as u16);
            set_pd_upper(node_page, off);
        },
    }
    Ok(())
}

/// Creates a node entry in the next free slot: [`select_slot`] and then
/// [`apply_node_at`]. The entry holds no node id; its place in the directory
/// is its identity.
pub fn append_node(
    node_page: &mut Page,
    node_id: u32,
    top_level: u8,
    geo: NodeGeometry,
    vector: &[u32],
) -> (r: Result<u16, HnswError>)
    ensures
        match node_appended(old(node_page)@, top_level, geo, vector@) {
            Ok((slot, q)) => r == Ok::<u16, HnswError>(slot) && final(node_page)@ == q,
            Err(e) => r == Err::<u16, HnswError>(e) && final(node_page)@ == old(node_page)@,
        },
{
    proof {
        node::lemma_sizes(geo, top_level);
    }
    let slot: u16 = match select_slot(node_page, geo.entry_size(top_level)) {
        Err(e) => {
            return Err(e);
        },
        Ok(slot) => slot,
    };
    match apply_node_at(node_page, slot, node_id, top_level, geo, vector) {
        Err(e) => Err(e),
        Ok(_) => Ok(slot),
    }
}

// ---------------------------------------------------------------------
// The directory.
// ---------------------------------------------------------------------

/// The directory page with the place of one more node at its end.
pub open spec fn dir_extended(p: Seq<u8>, target_page: PageId, target_slot: u16) -> Seq<u8> {
    let count = page::spec_dir_count(p);
    let p1 = bytes::splice(p, dir::entry_at(count as int), bytes::u64_le(target_page.0));
    let p2 = bytes::splice(p1, dir::entry_at(count as int) + 8, bytes::u16_le(target_slot));
    bytes::splice(p2, 44, bytes::u32_le((count + 1) as u32))
}

/// The position that [`dir_append`] gives and the page that it leaves; the
/// checks in this order.
pub open spec fn dir_appended(
    p: Seq<u8>,
    node_id: u32,
    target_page: PageId,
    target_slot: u16,
) -> Result<(u32, Seq<u8>), HnswError> {
    let count = page::spec_dir_count(p);
    let ordinal = page::spec_dir_ordinal(p);
    let base = ordinal * dir::DIR_ENTRIES_PER_PAGE;
    let hwm = base + count;
    if count > dir::DIR_ENTRIES_PER_PAGE {
        Err(
            HnswError::Corrupted(
                Reason::Dir(DirFault::CountAbove { what: "dir_append: directory header", count }),
            ),
        )
    } else if base > u64::MAX {
        Err(HnswError::Corrupted(Reason::Dir(DirFault::OrdinalOverflow { ordinal })))
    } else if hwm > u64::MAX {
        Err(
            HnswError::Corrupted(
                Reason::Dir(DirFault::HwmOverflow { what: "dir_append", ordinal, count }),
            ),
        )
    } else if node_id < base {
        Err(
            HnswError::Corrupted(
                Reason::Dir(DirFault::Predates { node_id, ordinal, base: base as u64 }),
            ),
        )
    } else if node_id < hwm {
        let have = dir::target(p, node_id - base);
        if have != (target_page, target_slot) {
            Err(
                HnswError::Corrupted(
                    Reason::Dir(
                        DirFault::Disagrees {
                            node_id,
                            page: have.0.0,
                            slot: have.1,
                            want_page: target_page.0,
                            want_slot: target_slot,
                        },
                    ),
                ),
            )
        } else {
            Ok(((node_id - base) as u32, p))
        }
    } else if node_id > hwm {
        Err(HnswError::Corrupted(Reason::Dir(DirFault::Gap { node_id, hwm: hwm as u64 })))
    } else if count >= dir::DIR_ENTRIES_PER_PAGE {
        Err(HnswError::InvalidOperation(Reason::Dir(DirFault::Full { count })))
    } else {
        Ok((count, dir_extended(p, target_page, target_slot)))
    }
}

/// Publishes the place of `node_id` at the end of the directory and gives its
/// position on the page. `node_id` is the high-water mark that the entry
/// raises, so an entry that is already there is left alone if it says the
/// same, and is corrupt if it does not.
pub fn dir_append(
    dir_tail_page: &mut Page,
    node_id: u32,
    target_page: PageId,
    target_slot: u16,
) -> (r: Result<u32, HnswError>)
    ensures
        match dir_appended(old(dir_tail_page)@, node_id, target_page, target_slot) {
            Ok((position, q)) => r == Ok::<u32, HnswError>(position) && final(dir_tail_page)@ == q,
            Err(e) => r == Err::<u32, HnswError>(e) && final(dir_tail_page)@ == old(
                dir_tail_page,
            )@,
        },
{
    let count: u32 = page::dir_count(dir_tail_page);
    if count > dir::DIR_ENTRIES_PER_PAGE {
        return Err(
            HnswError::Corrupted(Reason::Dir(DirFault::CountAbove { what: "dir_append: directory header", count })),
        );
    }
    let ordinal: u64 = page::dir_ordinal(dir_tail_page);
    let base: u64 = match ordinal.checked_mul(dir::DIR_ENTRIES_PER_PAGE as u64) {
        None => {
            return Err(
                HnswError::Corrupted(Reason::Dir(DirFault::OrdinalOverflow { ordinal })),
            );
        },
        Some(base) => base,
    };
    let hwm: u64 = match base.checked_add(count as u64) {
        None => {
            return Err(
                HnswError::Corrupted(
                    Reason::Dir(DirFault::HwmOverflow { what: "dir_append", ordinal, count }),
                ),
            );
        },
        Some(hwm) => hwm,
    };
    let id: u64 = node_id as u64;
    if id < base {
        return Err(
            HnswError::Corrupted(Reason::Dir(DirFault::Predates { node_id, ordinal, base })),
        );
    }
    if id < hwm {
        let position: usize = (id - base) as usize;
        let off: usize = 56 + 10 * position;
        let have_page: u64 = bytes::get_u64(dir_tail_page, off);
        let have_slot: u16 = bytes::get_u16(dir_tail_page, off + 8);
        if have_page != target_page.0 || have_slot != target_slot {
            return Err(
                HnswError::Corrupted(
                    Reason::Dir(
                        DirFault::Disagrees {
                            node_id,
                            page: have_page,
                            slot: have_slot,
                            want_page: target_page.0,
                            want_slot: target_slot,
                        },
                    ),
                ),
            );
        }
        return Ok(position as u32);
    }
    if id > hwm {
        return Err(HnswError::Corrupted(Reason::Dir(DirFault::Gap { node_id, hwm })));
    }
    if count >= dir::DIR_ENTRIES_PER_PAGE {
        return Err(HnswError::InvalidOperation(Reason::Dir(DirFault::Full { count })));
    }
    let off: usize = 56 + 10 * count as usize;
    bytes::put_u64(dir_tail_page, off, target_page.0);
    bytes::put_u16(dir_tail_page, off + 8, target_slot);
    bytes::put_u32(dir_tail_page, page::DIR_OFF_COUNT, count + 1);
    Ok(count)
}

/// The directory page with another page behind it.
pub open spec fn dir_linked(p: Seq<u8>, next: PageId) -> Seq<u8> {
    bytes::splice(p, 48, bytes::u64_le(next.0))
}

/// Links a directory page behind the tail.
pub fn dir_link(old_tail_page: &mut Page, new_dir_page: PageId)
    ensures
        final(old_tail_page)@ == dir_linked(old(old_tail_page)@, new_dir_page),
{
    bytes::put_u64(old_tail_page, page::DIR_OFF_NEXT, new_dir_page.0);
}

// ---------------------------------------------------------------------
// Changing entries.
// ---------------------------------------------------------------------

/// The bytes of a neighbor region: the count, the ids, and zeros over the
/// capacity that is not in use.
pub open spec fn region_bytes(content: Seq<u32>, cap: u16) -> Seq<u8> {
    bytes::u16_le(content.len() as u16) + bytes::words_le(content) + bytes::zeros(
        (4 * (cap - content.len())) as nat,
    )
}

/// The page that [`set_neighbors`] leaves; the checks in this order.
pub open spec fn neighbors_set(
    p: Seq<u8>,
    slot: u16,
    geo: NodeGeometry,
    level: u8,
    content: Seq<u32>,
) -> Result<Seq<u8>, HnswError> {
    let cap = geo.cap(level);
    match lp(p, slot) {
        None => Err(no_entry("set_neighbors", slot)),
        Some((off, len)) => if content.len() > cap {
            Err(
                HnswError::Corrupted(
                    Reason::Apply(
                        ApplyFault::Overflow { len: content.len() as usize, cap, level },
                    ),
                ),
            )
        } else {
            match region_in(p.subrange(off as int, off + len), geo, level, "set_neighbors") {
                Err(e) => Err(e),
                Ok(_) => Ok(
                    bytes::splice(p, off + geo.region_at(level), region_bytes(content, cap)),
                ),
            }
        },
    }
}

/// Replaces one level's neighbor list of the entry in `slot`. The capacity
/// that the list does not use is zeroed, so that the same list gives the
/// same page whatever was there before.
pub fn set_neighbors(
    node_page: &mut Page,
    slot: u16,
    geo: NodeGeometry,
    level: u8,
    content: &[u32],
) -> (r: Result<(), HnswError>)
    ensures
        match neighbors_set(old(node_page)@, slot, geo, level, content@) {
            Ok(q) => r == Ok::<(), HnswError>(()) && final(node_page)@ == q,
            Err(e) => r == Err::<(), HnswError>(e) && final(node_page)@ == old(node_page)@,
        },
{
    let (_, cap) = node::level_region_pos(geo, level);
    let (off, len) = match read_lp(node_page, slot) {
        None => {
            return Err(
                HnswError::Corrupted(
                    Reason::Apply(ApplyFault::NotLive { what: "set_neighbors", slot }),
                ),
            );
        },
        Some(b) => b,
    };
    if content.len() > cap as usize {
        return Err(
            HnswError::Corrupted(
                Reason::Apply(ApplyFault::Overflow { len: content.len(), cap, level }),
            ),
        );
    }
    let (from, to) = match checked_region(len as usize, geo, level, "set_neighbors") {
        Err(e) => {
            return Err(e);
        },
        Ok(b) => b,
    };
    let at: usize = off as usize + from;
    bytes::put_u16(node_page, at, content.len() as u16);
    bytes::fill_zero(node_page, at + 2, off as usize + to);
    bytes::put_words(node_page, at + 2, content);
    assert(node_page@ =~= bytes::splice(
        old(node_page)@,
        off + geo.region_at(level),
        region_bytes(content@, cap),
    ));
    Ok(())
}

/// Writes the meta page's entry point and its level.
pub fn apply_meta(meta_page: &mut Page, entry_point: u32, max_level: u8)
    ensures
        final(meta_page)@ == meta::meta_applied(old(meta_page)@, entry_point, max_level),
{
    bytes::put_u32(meta_page, meta::META_OFF_ENTRY_POINT, entry_point);
    meta_page[meta::META_OFF_MAX_LEVEL] = max_level;
}

/// The page with another state byte in the entry of `slot`, made from the
/// old one by `f`.
pub open spec fn state_changed(
    p: Seq<u8>,
    slot: u16,
    dim: u16,
    what: &'static str,
    f: spec_fn(u8) -> u8,
) -> Result<Seq<u8>, HnswError> {
    match lp(p, slot) {
        None => Err(no_entry(what, slot)),
        Some((off, len)) => match state_in(p.subrange(off as int, off + len), dim, what) {
            Err(e) => Err(e),
            Ok(b) => Ok(p.update(off + 4 * dim, f(b))),
        },
    }
}

/// The page that [`publish_live`] leaves.
pub open spec fn live_published(p: Seq<u8>, slot: u16, dim: u16) -> Result<Seq<u8>, HnswError> {
    state_changed(p, slot, dim, "publish_live", |b: u8| node::live_state(b))
}

/// The page that [`apply_tombstone`] leaves.
pub open spec fn tombstone_applied(p: Seq<u8>, slot: u16, dim: u16) -> Result<
    Seq<u8>,
    HnswError,
> {
    state_changed(p, slot, dim, "apply_tombstone", |b: u8| node::tombstone_state(b))
}

/// Where the state byte of the entry in `slot` stands, and the byte.
fn state_place(page: &Page, slot: u16, dim: u16, what: &'static str) -> (r: Result<
    (usize, u8),
    HnswError,
>)
    ensures
        match lp(page@, slot) {
            None => r == Err::<(usize, u8), HnswError>(no_entry(what, slot)),
            Some((off, len)) => match state_in(
                page@.subrange(off as int, off + len),
                dim,
                what,
            ) {
                Err(e) => r == Err::<(usize, u8), HnswError>(e),
                Ok(b) => r == Ok::<(usize, u8), HnswError>(((off + 4 * dim) as usize, b)) && off
                    + 4 * dim < PAGE_SIZE,
            },
        },
{
    match read_lp(page, slot) {
        None => Err(HnswError::Corrupted(Reason::Apply(ApplyFault::NotLive { what, slot }))),
        Some((off, len)) => {
            let entry: &[u8] = slice_subrange(page, off as usize, off as usize + len as usize);
            match state_byte(entry, dim, what) {
                Err(e) => Err(e),
                Ok(b) => Ok((off as usize + node::state_offset(dim), b)),
            }
        },
    }
}

/// Makes the entry in `slot` live.
pub fn publish_live(node_page: &mut Page, slot: u16, dim: u16) -> (r: Result<(), HnswError>)
    ensures
        match live_published(old(node_page)@, slot, dim) {
            Ok(q) => r == Ok::<(), HnswError>(()) && final(node_page)@ == q,
            Err(e) => r == Err::<(), HnswError>(e) && final(node_page)@ == old(node_page)@,
        },
{
    match state_place(node_page, slot, dim, "publish_live") {
        Err(e) => Err(e),
        Ok((at, b)) => {
            node_page[at] = node::set_live(b);
            Ok(())
        },
    }
}

/// Marks the entry in `slot` deleted; it stays live.
pub fn apply_tombstone(node_page: &mut Page, slot: u16, dim: u16) -> (r: Result<(), HnswError>)
    ensures
        match tombstone_applied(old(node_page)@, slot, dim) {
            Ok(q) => r == Ok::<(), HnswError>(()) && final(node_page)@ == q,
            Err(e) => r == Err::<(), HnswError>(e) && final(node_page)@ == old(node_page)@,
        },
{
    match state_place(node_page, slot, dim, "apply_tombstone") {
        Err(e) => Err(e),
        Ok((at, b)) => {
            node_page[at] = node::set_tombstone(b);
            Ok(())
        },
    }
}

} // verus!
