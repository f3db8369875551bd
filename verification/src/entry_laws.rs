//! What the page primitives give back and what they leave alone.
//!
//! Everything that a primitive of [`crate::apply`] puts on a page reads back
//! through the accessors, the rest of the page stays as it was, and applying
//! the same content again changes nothing.

use vstd::prelude::*;

use crate::apply;
use crate::bytes;
use crate::dir;
use crate::error::HnswError;
use crate::node;
use crate::node::NodeGeometry;
use crate::page;
use crate::storage;
use crate::storage::PageId;
use crate::storage::PAGE_SIZE;

verus! {

/// An entry in the tuple area lies behind the header and the line pointers.
pub proof fn lemma_lp_bounds(p: Seq<u8>, slot: u16)
    requires
        apply::lp(p, slot) is Some,
    ensures
        32 + 4 * slot + 4 <= storage::pd_lower(p) <= storage::pd_upper(p),
        apply::lp(p, slot) matches Some((off, len)) && storage::pd_upper(p) <= off && off + len
            <= storage::pd_special(p) <= PAGE_SIZE,
{
}

/// Line pointers depend on the header and the line-pointer array alone.
pub proof fn lemma_lp_frame(p: Seq<u8>, q: Seq<u8>, from: int, slot: u16)
    requires
        p.len() == PAGE_SIZE,
        q.len() == PAGE_SIZE,
        storage::pd_lower(p) <= from || !(32 <= storage::pd_lower(p) <= PAGE_SIZE),
        32 <= from,
        forall|i: int| 0 <= i < from && i < PAGE_SIZE ==> p[i] == q[i],
    ensures
        apply::lp(q, slot) == apply::lp(p, slot),
{
    let at = 32 + 4 * slot;
    assert(p[14] == q[14] && p[15] == q[15] && p[16] == q[16]);
    assert(p[17] == q[17] && p[18] == q[18] && p[19] == q[19]);
    if at + 4 <= storage::pd_lower(p) && 32 <= storage::pd_lower(p) <= PAGE_SIZE {
        assert(p[at] == q[at] && p[at + 1] == q[at + 1]);
        assert(p[at + 2] == q[at + 2] && p[at + 3] == q[at + 3]);
    }
}

/// What a fresh entry holds: the vector, the top level, no mark, and an
/// empty neighbor list on every level up to the top.
pub proof fn lemma_fresh_entry(geo: NodeGeometry, top_level: u8, vector: Seq<u32>)
    requires
        vector.len() == geo.dim,
        top_level <= 63,
    ensures
        ({
            let e = apply::fresh_entry(top_level, vector, geo.size(top_level));
            &&& e.len() == geo.size(top_level)
            &&& apply::vector_in(e, geo.dim) == Ok::<Seq<u32>, HnswError>(vector)
            &&& e[4 * geo.dim] == top_level
            &&& forall|level: u8, what: &'static str|
                level <= top_level ==> #[trigger] apply::neighbors_in(e, geo, level, what) == Ok::<
                    Seq<u32>,
                    HnswError,
                >(Seq::empty())
        }),
{
    let size = geo.size(top_level);
    let e = apply::fresh_entry(top_level, vector, size);
    node::lemma_sizes(geo, top_level);
    bytes::lemma_words_le(vector);
    let w = bytes::words_le(vector);
    assert(e.len() == size);
    assert(e.subrange(0, 4 * vector.len() as int) =~= w);
    bytes::lemma_words_inside(e, 0, vector);
    assert forall|level: u8, what: &'static str| level <= top_level implies #[trigger]
        apply::neighbors_in(e, geo, level, what) == Ok::<Seq<u32>, HnswError>(Seq::empty()) by {
        lemma_region_fits(geo, level, top_level);
        let from = geo.region_at(level);
        let to = from + node::region_size(geo.cap(level));
        let region = e.subrange(from, to);
        assert(region[0] == e[from] && region[1] == e[from + 1]);
        assert(e[from] == 0 && e[from + 1] == 0);
        assert(bytes::words_at(region, 2, 0) =~= Seq::<u32>::empty());
    }
}

/// The regions of an entry's levels lie inside it.
pub proof fn lemma_region_fits(geo: NodeGeometry, level: u8, top_level: u8)
    requires
        level <= top_level,
    ensures
        4 * geo.dim < geo.region_at(level),
        geo.region_at(level) + node::region_size(geo.cap(level)) <= geo.size(top_level),
{
    node::lemma_sizes(geo, level);
    node::lemma_size_monotone(geo, level, top_level);
    if level > 0 {
        let s = node::region_size(geo.m);
        assert(0 <= (level - 1) * s) by (nonlinear_arith)
            requires
                1 <= level,
                0 <= s,
        ;
    }
}

/// The regions of two levels do not overlap.
pub proof fn lemma_regions_disjoint(geo: NodeGeometry, low: u8, high: u8)
    requires
        low < high,
    ensures
        geo.region_at(low) + node::region_size(geo.cap(low)) <= geo.region_at(high),
{
    let s = node::region_size(geo.m);
    assert(0 <= (high - 1) * s) by (nonlinear_arith)
        requires
            1 <= high,
            0 <= s,
    ;
    if low > 0 {
        assert((low - 1) * s + s <= (high - 1) * s) by (nonlinear_arith)
            requires
                low < high,
                0 <= s,
        ;
    }
}

/// The region of a level above an entry's top lies past it.
pub proof fn lemma_region_past(geo: NodeGeometry, top_level: u8, level: u8)
    requires
        top_level < level,
    ensures
        geo.region_at(level) >= geo.size(top_level),
{
    let s = node::region_size(geo.m);
    assert((level - 1) * s >= top_level * s) by (nonlinear_arith)
        requires
            top_level <= level - 1,
            0 <= s,
    ;
}


/// What the accessors give of a page with a fresh entry in `slot`.
pub open spec fn holds_fresh_entry(
    q: Seq<u8>,
    slot: u16,
    top_level: u8,
    geo: NodeGeometry,
    vector: Seq<u32>,
) -> bool {
    &&& q.len() == PAGE_SIZE
    &&& apply::lp(q, slot) matches Some((off, len)) && len == geo.size(top_level)
    &&& apply::vector_of(q, slot, geo.dim) == Ok::<Seq<u32>, HnswError>(vector)
    &&& forall|what: &'static str| #[trigger]
        apply::state_of(q, slot, geo.dim, what) == Ok::<u8, HnswError>(top_level)
    &&& forall|level: u8|
        level <= top_level ==> #[trigger] apply::neighbors_of(q, slot, geo, level) == Ok::<
            Seq<u32>,
            HnswError,
        >(Seq::empty())
    &&& node::state_top(top_level) == top_level
    &&& !node::state_live(top_level)
    &&& !node::state_tombstoned(top_level)
}

/// A fresh entry reads back: after the entry of a node is applied to `slot`,
/// the slot holds its vector and its top level, is neither live nor
/// tombstoned, and has no neighbor on any of its levels.
pub proof fn lemma_applied_node_reads_back(
    p: Seq<u8>,
    slot: u16,
    top_level: u8,
    geo: NodeGeometry,
    vector: Seq<u32>,
)
    requires
        p.len() == PAGE_SIZE,
        apply::node_applied(p, slot, top_level, geo, vector) is Ok,
    ensures
        apply::node_applied(p, slot, top_level, geo, vector) matches Ok(q) && holds_fresh_entry(
            q,
            slot,
            top_level,
            geo,
            vector,
        ),
{
    node::lemma_sizes(geo, top_level);
    match apply::lp(p, slot) {
        Some((off, have)) => {
            let q = apply::overwritten(p, off, top_level, geo, vector);
            lemma_overwritten_page(p, slot, top_level, geo, vector);
            lemma_fresh_page(q, slot, off, top_level, geo, vector);
        },
        None => {
            let q = apply::created(p, slot, top_level, geo, vector);
            lemma_created_page(p, slot, top_level, geo, vector);
            let off = (storage::pd_upper(p) - geo.size(top_level)) as u16;
            lemma_fresh_page(q, slot, off, top_level, geo, vector);
        },
    }
}

/// The page after a fresh entry is written over the one in `slot`.
proof fn lemma_overwritten_page(
    p: Seq<u8>,
    slot: u16,
    top_level: u8,
    geo: NodeGeometry,
    vector: Seq<u32>,
)
    requires
        p.len() == PAGE_SIZE,
        vector.len() == geo.dim,
        top_level <= 63,
        apply::lp(p, slot) matches Some((off, have)) && have == geo.size(top_level),
    ensures
        apply::lp(p, slot) matches Some((off, have)) && {
            let q = apply::overwritten(p, off, top_level, geo, vector);
            &&& q.len() == PAGE_SIZE
            &&& apply::lp(q, slot) == apply::lp(p, slot)
            &&& q.subrange(off as int, off + have) == apply::fresh_entry(
                top_level,
                vector,
                geo.size(top_level),
            )
            &&& forall|i: int| 0 <= i < off ==> q[i] == p[i]
        },
{
    let (off, have) = apply::lp(p, slot)->0;
    let q = apply::overwritten(p, off, top_level, geo, vector);
    let e = apply::fresh_entry(top_level, vector, geo.size(top_level));
    lemma_fresh_entry(geo, top_level, vector);
    lemma_lp_bounds(p, slot);
    assert(e.len() == have);
    assert forall|i: int| 0 <= i < off implies q[i] == p[i] by {}
    lemma_lp_frame(p, q, off as int, slot);
    assert(q.subrange(off as int, off + have) =~= e);
}

/// What the accessors give of a page with a fresh entry in `slot`.
proof fn lemma_fresh_page(
    q: Seq<u8>,
    slot: u16,
    off: u16,
    top_level: u8,
    geo: NodeGeometry,
    vector: Seq<u32>,
)
    requires
        q.len() == PAGE_SIZE,
        vector.len() == geo.dim,
        top_level <= 63,
        apply::lp(q, slot) == Some((off, geo.size(top_level) as u16)),
        geo.size(top_level) <= 0xffff,
        q.subrange(off as int, off + geo.size(top_level)) == apply::fresh_entry(
            top_level,
            vector,
            geo.size(top_level),
        ),
    ensures
        holds_fresh_entry(q, slot, top_level, geo, vector),
{
    let e = apply::fresh_entry(top_level, vector, geo.size(top_level));
    node::lemma_sizes(geo, top_level);
    lemma_fresh_entry(geo, top_level, vector);
    assert forall|what: &'static str| #[trigger]
        apply::state_of(q, slot, geo.dim, what) == Ok::<u8, HnswError>(top_level) by {
        assert(apply::entry_of(q, slot, what) == Ok::<Seq<u8>, HnswError>(e));
    }
    assert forall|level: u8| level <= top_level implies #[trigger]
        apply::neighbors_of(q, slot, geo, level) == Ok::<Seq<u32>, HnswError>(Seq::empty()) by {
        assert(apply::entry_of(q, slot, "neighbor_iter") == Ok::<Seq<u8>, HnswError>(e));
        assert(apply::neighbors_in(e, geo, level, "neighbor_iter") == Ok::<Seq<u32>, HnswError>(
            Seq::empty(),
        ));
    }
}

/// Four runs of bytes written over a page: an entry at `off`, a line pointer
/// at `at`, and the two bounds of the free space.
proof fn lemma_four_splices(
    p: Seq<u8>,
    off: int,
    e: Seq<u8>,
    at: int,
    word: Seq<u8>,
    lower: Seq<u8>,
    upper: Seq<u8>,
)
    requires
        p.len() == PAGE_SIZE,
        word.len() == 4,
        lower.len() == 2,
        upper.len() == 2,
        32 <= at,
        at + 4 <= off,
        off + e.len() <= PAGE_SIZE,
    ensures
        ({
            let p1 = bytes::splice(bytes::splice(p, off, e), at, word);
            let q = bytes::splice(bytes::splice(p1, 14, lower), 16, upper);
            &&& q.len() == PAGE_SIZE
            &&& q[14] == lower[0] && q[15] == lower[1] && q[16] == upper[0] && q[17] == upper[1]
            &&& q[at] == word[0] && q[at + 1] == word[1] && q[at + 2] == word[2] && q[at + 3]
                == word[3]
            &&& forall|i: int| 0 <= i < e.len() ==> #[trigger] q[off + i] == e[i]
            &&& q.subrange(off, off + e.len()) == e
            &&& forall|i: int|
                0 <= i < PAGE_SIZE && !(14 <= i < 18) && !(at <= i < at + 4) && !(off <= i < off
                    + e.len()) ==> #[trigger] q[i] == p[i]
        }),
{
    let p1 = bytes::splice(bytes::splice(p, off, e), at, word);
    let q = bytes::splice(bytes::splice(p1, 14, lower), 16, upper);
    assert forall|i: int| 0 <= i < e.len() implies #[trigger] q[off + i] == e[i] by {}
    assert(q.subrange(off, off + e.len()) =~= e);
}

/// What the header and the line pointer of `slot` say of a page whose bytes
/// there are given, and that is like `p` in the rest of its header.
proof fn lemma_new_bounds(p: Seq<u8>, q: Seq<u8>, slot: u16, lower: u16, off: u16, size: u16)
    requires
        p.len() == PAGE_SIZE,
        q.len() == PAGE_SIZE,
        off + size <= PAGE_SIZE,
        36 <= lower <= off,
        lower == 36 + 4 * slot,
        off + size <= storage::pd_special(p) <= PAGE_SIZE,
        size >= 1,
        ({
            let at = 32 + 4 * slot;
            let word = bytes::u32_le(storage::line_pointer(off, size));
            &&& q[14] == bytes::u16_le(lower)[0] && q[15] == bytes::u16_le(lower)[1]
            &&& q[16] == bytes::u16_le(off)[0] && q[17] == bytes::u16_le(off)[1]
            &&& q[at] == word[0] && q[at + 1] == word[1] && q[at + 2] == word[2] && q[at + 3]
                == word[3]
        }),
        forall|i: int| 0 <= i < 14 ==> #[trigger] q[i] == p[i],
        q[18] == p[18] && q[19] == p[19],
    ensures
        storage::pd_lower(q) == lower,
        storage::pd_upper(q) == off,
        storage::pd_special(q) == storage::pd_special(p),
        storage::pd_flags(q) == storage::pd_flags(p),
        storage::pd_lsn(q) == storage::pd_lsn(p),
        apply::lp(q, slot) == Some((off, size)),
{
    let at = 32 + 4 * slot;
    bytes::lemma_u32_le(storage::line_pointer(off, size));
    bytes::lemma_u16_le(lower);
    bytes::lemma_u16_le(off);
    storage::lemma_line_pointer(off, size);
    assert(bytes::le32(q, at) == storage::line_pointer(off, size));
}

/// The page after an entry is created in its free space: the header and the
/// line pointer name the new entry, whose bytes are the fresh ones, and
/// everything else stays.
pub proof fn lemma_created_page(
    p: Seq<u8>,
    slot: u16,
    top_level: u8,
    geo: NodeGeometry,
    vector: Seq<u32>,
)
    requires
        p.len() == PAGE_SIZE,
        vector.len() == geo.dim,
        top_level <= 63,
        apply::bounds(p, "apply_node_at") is Ok,
        slot == (storage::pd_lower(p) - 32) / 4,
        storage::pd_upper(p) - storage::pd_lower(p) >= geo.size(top_level) + 4,
    ensures
        ({
            let q = apply::created(p, slot, top_level, geo, vector);
            let size = geo.size(top_level);
            let off = storage::pd_upper(p) - size;
            let e = apply::fresh_entry(top_level, vector, size);
            &&& q.len() == PAGE_SIZE
            &&& storage::pd_lower(q) == storage::pd_lower(p) + 4
            &&& storage::pd_upper(q) == off
            &&& storage::pd_special(q) == storage::pd_special(p)
            &&& storage::pd_flags(q) == storage::pd_flags(p)
            &&& storage::pd_lsn(q) == storage::pd_lsn(p)
            &&& apply::lp(q, slot) == Some((off as u16, size as u16))
            &&& forall|i: int| 0 <= i < size ==> #[trigger] q[off + i] == e[i]
            &&& q.subrange(off, off + size) == e
            &&& forall|i: int|
                0 <= i < PAGE_SIZE && !(14 <= i < 18) && !(32 + 4 * slot <= i < 36 + 4 * slot)
                    && !(off <= i < off + size) ==> #[trigger] q[i] == p[i]
        }),
{
    let q = apply::created(p, slot, top_level, geo, vector);
    let size = geo.size(top_level);
    let e = apply::fresh_entry(top_level, vector, size);
    lemma_fresh_entry(geo, top_level, vector);
    node::lemma_sizes(geo, top_level);
    let off = (storage::pd_upper(p) - size) as u16;
    let lower = (storage::pd_lower(p) + 4) as u16;
    let word = bytes::u32_le(storage::line_pointer(off, size as u16));
    lemma_four_splices(
        p,
        off as int,
        e,
        32 + 4 * slot,
        word,
        bytes::u16_le(lower),
        bytes::u16_le(off),
    );
    lemma_new_bounds(p, q, slot, lower, off, size as u16);
}

/// Creating an entry leaves every other entry where it was and as it was.
pub proof fn lemma_created_node_keeps_the_others(
    p: Seq<u8>,
    slot: u16,
    top_level: u8,
    geo: NodeGeometry,
    vector: Seq<u32>,
    other: u16,
    what: &'static str,
)
    requires
        p.len() == PAGE_SIZE,
        apply::lp(p, slot) is None,
        apply::node_applied(p, slot, top_level, geo, vector) is Ok,
        apply::lp(p, other) is Some,
    ensures
        ({
            let q = apply::node_applied(p, slot, top_level, geo, vector)->Ok_0;
            &&& apply::lp(q, other) == apply::lp(p, other)
            &&& apply::entry_of(q, other, what) == apply::entry_of(p, other, what)
        }),
{
    let q = apply::node_applied(p, slot, top_level, geo, vector)->Ok_0;
    node::lemma_sizes(geo, top_level);
    lemma_created_page(p, slot, top_level, geo, vector);
    lemma_lp_bounds(p, other);
    let at = 32 + 4 * other;
    assert(at + 4 <= 32 + 4 * slot);
    assert(q[at] == p[at] && q[at + 1] == p[at + 1]);
    assert(q[at + 2] == p[at + 2] && q[at + 3] == p[at + 3]);
    let (off, len) = apply::lp(p, other)->0;
    assert(q.subrange(off as int, off + len) =~= p.subrange(off as int, off + len));
}

/// Applying a node entry again leaves the same page, as long as it has not
/// become live.
pub proof fn lemma_applied_node_replays(
    p: Seq<u8>,
    slot: u16,
    top_level: u8,
    geo: NodeGeometry,
    vector: Seq<u32>,
)
    requires
        p.len() == PAGE_SIZE,
        apply::node_applied(p, slot, top_level, geo, vector) is Ok,
    ensures
        ({
            let q = apply::node_applied(p, slot, top_level, geo, vector)->Ok_0;
            apply::node_applied(q, slot, top_level, geo, vector) == Ok::<Seq<u8>, HnswError>(q)
        }),
{
    let q = apply::node_applied(p, slot, top_level, geo, vector)->Ok_0;
    let size = geo.size(top_level);
    let e = apply::fresh_entry(top_level, vector, size);
    lemma_fresh_entry(geo, top_level, vector);
    node::lemma_sizes(geo, top_level);
    lemma_applied_node_reads_back(p, slot, top_level, geo, vector);
    match apply::lp(p, slot) {
        Some((off, have)) => {
            lemma_lp_bounds(p, slot);
            lemma_lp_frame(p, q, off as int, slot);
            assert(q[14] == p[14] && q[15] == p[15] && q[16] == p[16]);
            assert(q[17] == p[17] && q[18] == p[18] && q[19] == p[19]);
            assert(q[off + 4 * geo.dim] == e[4 * geo.dim]);
            assert(apply::overwritten(q, off, top_level, geo, vector) =~= q);
        },
        None => {
            lemma_created_page(p, slot, top_level, geo, vector);
            let off = (storage::pd_upper(p) - size) as u16;
            assert(q[off + 4 * geo.dim] == e[4 * geo.dim]);
            assert(apply::overwritten(q, off, top_level, geo, vector) =~= q);
        },
    }
}

/// A neighbor list reads back: after a list is set, the level holds exactly
/// it, setting it again changes nothing, and a later list replaces it as if
/// it had never been there.
pub proof fn lemma_set_neighbors_reads_back(
    p: Seq<u8>,
    slot: u16,
    geo: NodeGeometry,
    level: u8,
    content: Seq<u32>,
    later: Seq<u32>,
)
    requires
        p.len() == PAGE_SIZE,
        apply::neighbors_set(p, slot, geo, level, content) is Ok,
    ensures
        ({
            let q = apply::neighbors_set(p, slot, geo, level, content)->Ok_0;
            &&& q.len() == PAGE_SIZE
            &&& apply::neighbors_of(q, slot, geo, level) == Ok::<Seq<u32>, HnswError>(content)
            &&& apply::neighbors_set(q, slot, geo, level, content) == Ok::<Seq<u8>, HnswError>(q)
            &&& apply::neighbors_set(q, slot, geo, level, later) == apply::neighbors_set(
                p,
                slot,
                geo,
                level,
                later,
            )
        }),
{
    let q = apply::neighbors_set(p, slot, geo, level, content)->Ok_0;
    let (off, len) = apply::lp(p, slot)->0;
    let cap = geo.cap(level);
    let from = geo.region_at(level);
    let at = off + from;
    let region = apply::region_bytes(content, cap);
    node::lemma_sizes(geo, level);
    lemma_lp_bounds(p, slot);
    lemma_lp_frame(p, q, off as int, slot);
    lemma_region_bytes(content, cap);
    let e = q.subrange(off as int, off + len);
    let got = e.subrange(from, from + node::region_size(cap));
    assert(got =~= region);
    assert(apply::neighbors_in(e, geo, level, "neighbor_iter") == Ok::<Seq<u32>, HnswError>(
        content,
    ));
    assert(bytes::splice(q, at, region) =~= q);
    if later.len() <= cap {
        lemma_region_bytes(later, cap);
        assert(bytes::splice(q, at, apply::region_bytes(later, cap)) =~= bytes::splice(
            p,
            at,
            apply::region_bytes(later, cap),
        ));
    }
}

/// What a neighbor region holds.
pub proof fn lemma_region_bytes(content: Seq<u32>, cap: u16)
    requires
        content.len() <= cap,
    ensures
        apply::region_bytes(content, cap).len() == node::region_size(cap),
        bytes::le16(apply::region_bytes(content, cap), 0) == content.len(),
        bytes::words_at(apply::region_bytes(content, cap), 2, content.len()) == content,
{
    let region = apply::region_bytes(content, cap);
    let w = bytes::words_le(content);
    bytes::lemma_words_le(content);
    bytes::lemma_u16_le(content.len() as u16);
    assert(region[0] == bytes::u16_le(content.len() as u16)[0]);
    assert(region[1] == bytes::u16_le(content.len() as u16)[1]);
    assert(region.subrange(2, 2 + 4 * (content.len() as int)) =~= w);
    bytes::lemma_words_inside(region, 2, content);
}

/// Setting one level's list leaves the entry's vector, its state and its
/// other levels alone.
pub proof fn lemma_set_neighbors_keeps_the_rest(
    p: Seq<u8>,
    slot: u16,
    geo: NodeGeometry,
    level: u8,
    content: Seq<u32>,
    other: u8,
    what: &'static str,
)
    requires
        p.len() == PAGE_SIZE,
        apply::neighbors_set(p, slot, geo, level, content) is Ok,
        other != level,
    ensures
        ({
            let q = apply::neighbors_set(p, slot, geo, level, content)->Ok_0;
            &&& apply::vector_of(q, slot, geo.dim) == apply::vector_of(p, slot, geo.dim)
            &&& apply::state_of(q, slot, geo.dim, what) == apply::state_of(p, slot, geo.dim, what)
            &&& apply::neighbors_of(q, slot, geo, other) == apply::neighbors_of(p, slot, geo, other)
        }),
{
    let q = apply::neighbors_set(p, slot, geo, level, content)->Ok_0;
    let (off, len) = apply::lp(p, slot)->0;
    let cap = geo.cap(level);
    let from = geo.region_at(level);
    node::lemma_sizes(geo, level);
    lemma_region_fits(geo, level, level);
    lemma_lp_bounds(p, slot);
    lemma_lp_frame(p, q, off as int, slot);
    bytes::lemma_words_le(content);
    bytes::lemma_u16_le(content.len() as u16);
    let e = p.subrange(off as int, off + len);
    let f = q.subrange(off as int, off + len);
    assert(apply::region_bytes(content, cap).len() == node::region_size(cap));
    assert forall|i: int| 0 <= i < len && !(from <= i < from + node::region_size(cap)) implies e[i]
        == f[i] by {}
    if 4 * geo.dim <= len {
        bytes::lemma_words_same(e, f, 0, geo.dim as nat);
    }
    let ofrom = geo.region_at(other);
    let oto = ofrom + node::region_size(geo.cap(other));
    if other < level {
        lemma_regions_disjoint(geo, other, level);
    } else {
        lemma_regions_disjoint(geo, level, other);
    }
    node::lemma_sizes(geo, other);
    if oto <= len {
        assert(e.subrange(ofrom, oto) =~= f.subrange(ofrom, oto));
    }
}

/// The state byte and the rest of an entry after the state byte changed.
proof fn lemma_state_changed(
    p: Seq<u8>,
    slot: u16,
    geo: NodeGeometry,
    what: &'static str,
    f: spec_fn(u8) -> u8,
)
    requires
        p.len() == PAGE_SIZE,
        apply::state_changed(p, slot, geo.dim, what, f) is Ok,
    ensures
        ({
            let q = apply::state_changed(p, slot, geo.dim, what, f)->Ok_0;
            let b = apply::state_of(p, slot, geo.dim, what)->Ok_0;
            &&& q.len() == PAGE_SIZE
            &&& apply::state_of(p, slot, geo.dim, what) is Ok
            &&& forall|w: &'static str| #[trigger]
                apply::state_of(q, slot, geo.dim, w) == Ok::<u8, HnswError>(f(b))
            &&& apply::vector_of(q, slot, geo.dim) == apply::vector_of(p, slot, geo.dim)
            &&& forall|level: u8| #[trigger]
                apply::neighbors_of(q, slot, geo, level) == apply::neighbors_of(p, slot, geo, level)
            &&& f(f(b)) == f(b) ==> apply::state_changed(q, slot, geo.dim, what, f) == Ok::<
                Seq<u8>,
                HnswError,
            >(q)
        }),
{
    let q = apply::state_changed(p, slot, geo.dim, what, f)->Ok_0;
    let (off, len) = apply::lp(p, slot)->0;
    lemma_lp_bounds(p, slot);
    lemma_lp_frame(p, q, off as int, slot);
    let e = p.subrange(off as int, off + len);
    let g = q.subrange(off as int, off + len);
    assert forall|i: int| 0 <= i < len && i != 4 * geo.dim implies e[i] == g[i] by {}
    bytes::lemma_words_same(e, g, 0, geo.dim as nat);
    assert forall|level: u8| #[trigger]
        apply::neighbors_of(q, slot, geo, level) == apply::neighbors_of(p, slot, geo, level) by {
        lemma_region_fits(geo, level, level);
        let from = geo.region_at(level);
        let to = from + node::region_size(geo.cap(level));
        if to <= len {
            assert(e.subrange(from, to) =~= g.subrange(from, to));
        }
    }
    let b = e[4 * geo.dim];
    if f(f(b)) == f(b) {
        assert(q.update(off + 4 * geo.dim, f(f(b))) =~= q);
    }
}

/// Publishing makes the entry live and nothing else: its top level, its
/// tombstone mark, its vector and its neighbors stay, and publishing again
/// changes nothing.
pub proof fn lemma_publish_live(p: Seq<u8>, slot: u16, geo: NodeGeometry, what: &'static str)
    requires
        p.len() == PAGE_SIZE,
        apply::live_published(p, slot, geo.dim) is Ok,
    ensures
        ({
            let q = apply::live_published(p, slot, geo.dim)->Ok_0;
            let b = apply::state_of(p, slot, geo.dim, what)->Ok_0;
            let c = apply::state_of(q, slot, geo.dim, what)->Ok_0;
            &&& q.len() == PAGE_SIZE
            &&& apply::state_of(q, slot, geo.dim, what) is Ok
            &&& node::state_live(c)
            &&& node::state_tombstoned(c) == node::state_tombstoned(b)
            &&& node::state_top(c) == node::state_top(b)
            &&& apply::vector_of(q, slot, geo.dim) == apply::vector_of(p, slot, geo.dim)
            &&& forall|level: u8| #[trigger]
                apply::neighbors_of(q, slot, geo, level) == apply::neighbors_of(p, slot, geo, level)
            &&& apply::live_published(q, slot, geo.dim) == Ok::<Seq<u8>, HnswError>(q)
        }),
{
    let f = |b: u8| node::live_state(b);
    lemma_state_changed(p, slot, geo, "publish_live", f);
    let b = apply::state_of(p, slot, geo.dim, what)->Ok_0;
    node::lemma_state_bits_are_independent(b);
    let q = apply::live_published(p, slot, geo.dim)->Ok_0;
    assert(apply::state_of(q, slot, geo.dim, what) == Ok::<u8, HnswError>(f(b)));
}

/// A tombstone marks the entry deleted and nothing else: the entry stays
/// live, and marking it again changes nothing.
pub proof fn lemma_tombstone(p: Seq<u8>, slot: u16, geo: NodeGeometry, what: &'static str)
    requires
        p.len() == PAGE_SIZE,
        apply::tombstone_applied(p, slot, geo.dim) is Ok,
    ensures
        ({
            let q = apply::tombstone_applied(p, slot, geo.dim)->Ok_0;
            let b = apply::state_of(p, slot, geo.dim, what)->Ok_0;
            let c = apply::state_of(q, slot, geo.dim, what)->Ok_0;
            &&& q.len() == PAGE_SIZE
            &&& apply::state_of(q, slot, geo.dim, what) is Ok
            &&& node::state_tombstoned(c)
            &&& node::state_live(c) == node::state_live(b)
            &&& node::state_top(c) == node::state_top(b)
            &&& apply::vector_of(q, slot, geo.dim) == apply::vector_of(p, slot, geo.dim)
            &&& forall|level: u8| #[trigger]
                apply::neighbors_of(q, slot, geo, level) == apply::neighbors_of(p, slot, geo, level)
            &&& apply::tombstone_applied(q, slot, geo.dim) == Ok::<Seq<u8>, HnswError>(q)
        }),
{
    let f = |b: u8| node::tombstone_state(b);
    lemma_state_changed(p, slot, geo, "apply_tombstone", f);
    let b = apply::state_of(p, slot, geo.dim, what)->Ok_0;
    node::lemma_state_bits_are_independent(b);
    let q = apply::tombstone_applied(p, slot, geo.dim)->Ok_0;
    assert(apply::state_of(q, slot, geo.dim, what) == Ok::<u8, HnswError>(f(b)));
}

/// Once an entry is live, applying its creation again is refused.
pub proof fn lemma_live_entry_is_not_overwritten(
    p: Seq<u8>,
    slot: u16,
    top_level: u8,
    geo: NodeGeometry,
    vector: Seq<u32>,
)
    requires
        p.len() == PAGE_SIZE,
        apply::live_published(p, slot, geo.dim) is Ok,
    ensures
        ({
            let q = apply::live_published(p, slot, geo.dim)->Ok_0;
            apply::node_applied(q, slot, top_level, geo, vector) is Err
        }),
{
    let q = apply::live_published(p, slot, geo.dim)->Ok_0;
    let (off, len) = apply::lp(p, slot)->0;
    lemma_lp_bounds(p, slot);
    lemma_lp_frame(p, q, off as int, slot);
    let b = p.subrange(off as int, off + len)[4 * geo.dim];
    node::lemma_state_bits_are_independent(b);
    assert(q[off + 4 * geo.dim] == node::live_state(b));
}

/// A published place reads back: the new entry holds the target, the entries
/// before it and the links stay, and publishing it again changes nothing.
pub proof fn lemma_dir_append_reads_back(
    p: Seq<u8>,
    node_id: u32,
    target_page: PageId,
    target_slot: u16,
    before: u32,
)
    requires
        p.len() == PAGE_SIZE,
        apply::dir_appended(p, node_id, target_page, target_slot) is Ok,
    ensures
        ({
            let (position, q) = apply::dir_appended(p, node_id, target_page, target_slot)->Ok_0;
            &&& q.len() == PAGE_SIZE
            &&& dir::entry(q, position) == Ok::<(PageId, u16), HnswError>((target_page, target_slot))
            &&& page::spec_dir_ordinal(q) == page::spec_dir_ordinal(p)
            &&& page::spec_dir_next(q) == page::spec_dir_next(p)
            &&& storage::pd_flags(q) == storage::pd_flags(p)
            &&& page::spec_dir_count(p) <= page::spec_dir_count(q)
            &&& node_id == dir::tail_hwm(p) ==> dir::tail_hwm(q) == dir::tail_hwm(p) + 1
            &&& before < page::spec_dir_count(p) ==> dir::entry(q, before) == dir::entry(p, before)
            &&& apply::dir_appended(q, node_id, target_page, target_slot) == Ok::<
                (u32, Seq<u8>),
                HnswError,
            >((position, q))
        }),
{
    let (position, q) = apply::dir_appended(p, node_id, target_page, target_slot)->Ok_0;
    let count = page::spec_dir_count(p);
    let base = page::spec_dir_ordinal(p) * dir::DIR_ENTRIES_PER_PAGE;
    if node_id == base + count {
        let at = dir::entry_at(count as int);
        let p1 = bytes::splice(p, at, bytes::u64_le(target_page.0));
        let p2 = bytes::splice(p1, at + 8, bytes::u16_le(target_slot));
        bytes::lemma_u64_le(target_page.0);
        bytes::lemma_u16_le(target_slot);
        bytes::lemma_u32_le((count + 1) as u32);
        bytes::lemma_splice_le64(p, at, target_page.0);
        bytes::lemma_splice_le16(p1, at + 8, target_slot);
        bytes::lemma_splice_le32(p2, 44, (count + 1) as u32);
        assert forall|i: int| at <= i < at + 8 implies q[i] == p1[i] by {}
        assert forall|i: int| at + 8 <= i < at + 10 implies q[i] == p2[i] by {}
        assert forall|i: int| 0 <= i < at && !(44 <= i < 48) implies q[i] == p[i] by {}
        assert(bytes::le64(q, at) == bytes::le64(p1, at));
        assert(bytes::le16(q, at + 8) == bytes::le16(p2, at + 8));
        assert(page::spec_dir_count(q) == count + 1);
        if before < count {
            assert(dir::target(q, before as int) == dir::target(p, before as int));
        }
    }
}

/// Linking a page behind the tail changes the link and nothing else, and
/// linking it again changes nothing.
pub proof fn lemma_dir_link(p: Seq<u8>, next: PageId, index: u32)
    requires
        p.len() == PAGE_SIZE,
    ensures
        ({
            let q = apply::dir_linked(p, next);
            &&& q.len() == PAGE_SIZE
            &&& page::spec_dir_next(q) == next
            &&& page::spec_dir_ordinal(q) == page::spec_dir_ordinal(p)
            &&& page::spec_dir_count(q) == page::spec_dir_count(p)
            &&& storage::pd_flags(q) == storage::pd_flags(p)
            &&& dir::entry(q, index) == dir::entry(p, index)
            &&& apply::dir_linked(q, next) == q
        }),
{
    let q = apply::dir_linked(p, next);
    bytes::lemma_splice_le64(p, 48, next.0);
    bytes::lemma_u64_le(next.0);
    assert forall|i: int| 0 <= i < PAGE_SIZE && !(48 <= i < 56) implies q[i] == p[i] by {}
    if index < page::spec_dir_count(p) <= dir::DIR_ENTRIES_PER_PAGE {
        assert(dir::target(q, index as int) == dir::target(p, index as int));
    }
    assert(apply::dir_linked(q, next) =~= q);
}

} // verus!
