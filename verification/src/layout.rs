//! How the nodes of an index lie on its pages.
//!
//! An entry is a run of bytes on a node page; the directory says which entry
//! is whose. Operations on pages are seen here as operations on the bytes of
//! single entries, and the bytes of an entry as a node of a graph.

use vstd::prelude::*;

use crate::apply;
use crate::bytes;
use crate::entry_laws;
use crate::error::HnswError;
use crate::node;
use crate::node::NodeGeometry;
use crate::page;
use crate::page::PAGE_TYPE_NODE;
use crate::storage;
use crate::storage::Lsn;
use crate::storage::PAGE_SIZE;

verus! {

// ---------------------------------------------------------------------
// The entries of a node page.
// ---------------------------------------------------------------------

/// The bytes of the entry in `slot`, if there is one.
pub open spec fn slot_bytes(p: Seq<u8>, slot: u16) -> Option<Seq<u8>> {
    match apply::lp(p, slot) {
        None => None,
        Some((off, len)) => Some(p.subrange(off as int, off + len)),
    }
}

/// Two runs of bytes, given by offset and length, do not overlap.
pub open spec fn apart(a: (u16, u16), b: (u16, u16)) -> bool {
    a.0 + a.1 <= b.0 || b.0 + b.1 <= a.0
}

/// A node page in order: it is slotted, every slot holds an entry, and the
/// entries do not overlap.
pub open spec fn node_page_ok(p: Seq<u8>) -> bool {
    &&& p.len() == PAGE_SIZE
    &&& storage::pd_flags(p) == PAGE_TYPE_NODE
    &&& 32 <= storage::pd_lower(p) <= storage::pd_upper(p) <= storage::pd_special(p) <= PAGE_SIZE
    &&& (storage::pd_lower(p) - 32) % 4 == 0
    &&& forall|s: u16|
        36 + 4 * s <= storage::pd_lower(p) ==> (#[trigger] apply::lp(p, s)) is Some
    &&& forall|s: u16, t: u16|
        s != t && (#[trigger] apply::lp(p, s)) is Some && (#[trigger] apply::lp(p, t)) is Some
            ==> apart(apply::lp(p, s)->0, apply::lp(p, t)->0)
}

/// A blank node page is in order and holds no entry.
pub proof fn lemma_blank_node_page()
    ensures
        node_page_ok(page::blank_page(PAGE_TYPE_NODE)),
        forall|s: u16| #[trigger] slot_bytes(page::blank_page(PAGE_TYPE_NODE), s) is None,
{
    page::lemma_blank_page(PAGE_TYPE_NODE);
}

/// A page that differs from `p` in its log position alone.
pub open spec fn same_past_lsn(p: Seq<u8>, q: Seq<u8>) -> bool {
    &&& q.len() == p.len()
    &&& forall|i: int| 8 <= i < p.len() ==> q[i] == p[i]
}

/// The log position is no part of what a page says otherwise.
pub proof fn lemma_with_lsn(p: Seq<u8>, lsn: Lsn)
    requires
        p.len() == PAGE_SIZE,
    ensures
        same_past_lsn(p, storage::with_lsn(p, lsn)),
        storage::pd_lsn(storage::with_lsn(p, lsn)) == lsn.0,
{
    bytes::lemma_u64_le(lsn.0);
    bytes::lemma_splice_le64(p, 0, lsn.0);
}

/// The type and the entries of a node page do not depend on its log position.
pub proof fn lemma_lsn_keeps_entries(p: Seq<u8>, q: Seq<u8>)
    requires
        p.len() == PAGE_SIZE,
        same_past_lsn(p, q),
    ensures
        storage::pd_flags(q) == storage::pd_flags(p),
        node_page_ok(q) == node_page_ok(p),
        forall|s: u16| #[trigger] apply::lp(q, s) == apply::lp(p, s),
        forall|s: u16| #[trigger] slot_bytes(q, s) == slot_bytes(p, s),
{
    assert(storage::pd_flags(q) == storage::pd_flags(p));
    assert(storage::pd_lower(q) == storage::pd_lower(p));
    assert(storage::pd_upper(q) == storage::pd_upper(p));
    assert(storage::pd_special(q) == storage::pd_special(p));
    assert forall|s: u16| #[trigger] apply::lp(q, s) == apply::lp(p, s) by {
        let at = 32 + 4 * s;
        if at + 4 <= PAGE_SIZE {
            assert(q[at] == p[at] && q[at + 1] == p[at + 1]);
            assert(q[at + 2] == p[at + 2] && q[at + 3] == p[at + 3]);
        }
    }
    assert forall|s: u16| #[trigger] slot_bytes(q, s) == slot_bytes(p, s) by {
        if let Some((off, len)) = apply::lp(p, s) {
            entry_laws::lemma_lp_bounds(p, s);
            assert(q.subrange(off as int, off + len) =~= p.subrange(off as int, off + len));
        }
    }
    assert(node_page_ok(p) ==> forall|s: u16|
        36 + 4 * s <= storage::pd_lower(q) ==> (#[trigger] apply::lp(q, s)) is Some) by {
        assert forall|s: u16|
            node_page_ok(p) && 36 + 4 * s <= storage::pd_lower(q) implies (#[trigger] apply::lp(
            q,
            s,
        )) is Some by {
            assert(apply::lp(p, s) is Some);
        }
    }
    assert(node_page_ok(q) ==> forall|s: u16|
        36 + 4 * s <= storage::pd_lower(p) ==> (#[trigger] apply::lp(p, s)) is Some) by {
        assert forall|s: u16|
            node_page_ok(q) && 36 + 4 * s <= storage::pd_lower(p) implies (#[trigger] apply::lp(
            p,
            s,
        )) is Some by {
            assert(apply::lp(q, s) is Some);
        }
    }
    assert forall|s: u16, t: u16|
        s != t && (#[trigger] apply::lp(q, s)) is Some && (#[trigger] apply::lp(q, t)) is Some
            && node_page_ok(p) implies apart(apply::lp(q, s)->0, apply::lp(q, t)->0) by {
        assert(apply::lp(p, s) is Some && apply::lp(p, t) is Some);
    }
    assert forall|s: u16, t: u16|
        s != t && (#[trigger] apply::lp(p, s)) is Some && (#[trigger] apply::lp(p, t)) is Some
            && node_page_ok(q) implies apart(apply::lp(p, s)->0, apply::lp(p, t)->0) by {
        assert(apply::lp(q, s) is Some && apply::lp(q, t) is Some);
    }
}

/// Writing inside an entry changes that entry and no other.
pub proof fn lemma_written_inside(p: Seq<u8>, slot: u16, at: int, b: Seq<u8>)
    requires
        node_page_ok(p),
        apply::lp(p, slot) matches Some((off, len)) && 0 <= at && at + b.len() <= len,
    ensures
        ({
            let (off, len) = apply::lp(p, slot)->0;
            let e = p.subrange(off as int, off + len);
            let q = bytes::splice(p, off + at, b);
            &&& node_page_ok(q)
            &&& storage::pd_lsn(q) == storage::pd_lsn(p)
            &&& forall|s: u16| #[trigger] apply::lp(q, s) == apply::lp(p, s)
            &&& slot_bytes(q, slot) == Some(bytes::splice(e, at, b))
            &&& forall|s: u16| s != slot ==> #[trigger] slot_bytes(q, s) == slot_bytes(p, s)
        }),
{
    let (off, len) = apply::lp(p, slot)->0;
    let e = p.subrange(off as int, off + len);
    let q = bytes::splice(p, off + at, b);
    entry_laws::lemma_lp_bounds(p, slot);
    assert(forall|i: int| 0 <= i < 32 ==> q[i] == p[i]);
    assert(storage::pd_lsn(q) == storage::pd_lsn(p));
    assert forall|s: u16| #[trigger] apply::lp(q, s) == apply::lp(p, s) by {
        entry_laws::lemma_lp_frame(p, q, off as int, s);
    }
    assert(q.subrange(off as int, off + len) =~= bytes::splice(e, at, b));
    assert forall|s: u16| s != slot implies #[trigger] slot_bytes(q, s) == slot_bytes(p, s) by {
        assert(apply::lp(q, s) == apply::lp(p, s));
        if let Some((o, n)) = apply::lp(p, s) {
            entry_laws::lemma_lp_bounds(p, s);
            assert(apart(apply::lp(p, slot)->0, apply::lp(p, s)->0));
            assert(q.subrange(o as int, o + n) =~= p.subrange(o as int, o + n));
        }
    }
    assert forall|s: u16, t: u16|
        s != t && (#[trigger] apply::lp(q, s)) is Some && (#[trigger] apply::lp(q, t))
            is Some implies apart(apply::lp(q, s)->0, apply::lp(q, t)->0) by {
        assert(apply::lp(p, s) is Some && apply::lp(p, t) is Some);
    }
}

/// `q` is `p` with one more entry of `size` bytes below the others, and its
/// line pointer in `slot`.
spec fn entry_appended(p: Seq<u8>, q: Seq<u8>, slot: u16, size: int) -> bool {
    let off = storage::pd_upper(p) - size;
    &&& 0 <= size
    &&& slot == (storage::pd_lower(p) - 32) / 4
    &&& storage::pd_lower(p) + 4 <= off
    &&& q.len() == PAGE_SIZE
    &&& storage::pd_flags(q) == storage::pd_flags(p)
    &&& storage::pd_lower(q) == storage::pd_lower(p) + 4
    &&& storage::pd_upper(q) == off
    &&& storage::pd_special(q) == storage::pd_special(p)
    &&& apply::lp(q, slot) == Some((off as u16, size as u16))
    &&& forall|i: int|
        0 <= i < PAGE_SIZE && !(14 <= i < 18) && !(32 + 4 * slot <= i < 36 + 4 * slot) && !(off <= i
            < off + size) ==> #[trigger] q[i] == p[i]
}

/// The line pointers of the other slots stay.
proof fn lemma_appended_pointers(p: Seq<u8>, q: Seq<u8>, slot: u16, size: int, s: u16)
    requires
        node_page_ok(p),
        entry_appended(p, q, slot, size),
        s != slot,
    ensures
        apply::lp(q, s) == apply::lp(p, s),
{
    if s < slot {
        let at = 32 + 4 * s;
        assert(apply::lp(p, s) is Some);
        assert(q[at] == p[at] && q[at + 1] == p[at + 1]);
        assert(q[at + 2] == p[at + 2] && q[at + 3] == p[at + 3]);
        assert(bytes::le32(q, at) == bytes::le32(p, at));
    }
}

/// One more entry leaves a page in order, and the other entries as they are.
proof fn lemma_entry_appended(p: Seq<u8>, q: Seq<u8>, slot: u16, size: int)
    requires
        node_page_ok(p),
        entry_appended(p, q, slot, size),
    ensures
        node_page_ok(q),
        forall|s: u16| s != slot ==> #[trigger] slot_bytes(q, s) == slot_bytes(p, s),
{
    assert forall|s: u16| s != slot implies #[trigger] apply::lp(q, s) == apply::lp(p, s) by {
        lemma_appended_pointers(p, q, slot, size, s);
    }
    assert forall|s: u16| s != slot implies #[trigger] slot_bytes(q, s) == slot_bytes(p, s) by {
        assert(apply::lp(q, s) == apply::lp(p, s));
        if let Some((o, n)) = apply::lp(p, s) {
            entry_laws::lemma_lp_bounds(p, s);
            assert(q.subrange(o as int, o + n) =~= p.subrange(o as int, o + n));
        }
    }
    assert forall|s: u16| 36 + 4 * s <= storage::pd_lower(q) implies (#[trigger] apply::lp(q, s))
        is Some by {
        if s != slot {
            assert(apply::lp(p, s) is Some);
        }
    }
    assert forall|s: u16, t: u16|
        s != t && (#[trigger] apply::lp(q, s)) is Some && (#[trigger] apply::lp(q, t))
            is Some implies apart(apply::lp(q, s)->0, apply::lp(q, t)->0) by {
        if s != slot && t != slot {
            assert(apply::lp(p, s) is Some && apply::lp(p, t) is Some);
        } else if s == slot {
            entry_laws::lemma_lp_bounds(p, t);
        } else {
            entry_laws::lemma_lp_bounds(p, s);
        }
    }
}

/// Creating an entry in a free slot adds that entry and changes no other.
pub proof fn lemma_created_entry(
    p: Seq<u8>,
    slot: u16,
    top: u8,
    geo: NodeGeometry,
    vector: Seq<u32>,
)
    requires
        node_page_ok(p),
        apply::lp(p, slot) is None,
        apply::node_applied(p, slot, top, geo, vector) is Ok,
    ensures
        ({
            let q = apply::node_applied(p, slot, top, geo, vector)->Ok_0;
            &&& node_page_ok(q)
            &&& storage::pd_lsn(q) == storage::pd_lsn(p)
            &&& vector.len() == geo.dim
            &&& top <= 63
            &&& slot_bytes(q, slot) == Some(apply::fresh_entry(top, vector, geo.size(top)))
            &&& forall|s: u16| s != slot ==> #[trigger] slot_bytes(q, s) == slot_bytes(p, s)
        }),
{
    let q = apply::node_applied(p, slot, top, geo, vector)->Ok_0;
    let size = geo.size(top);
    node::lemma_sizes(geo, top);
    entry_laws::lemma_created_page(p, slot, top, geo, vector);
    assert(entry_appended(p, q, slot, size));
    lemma_entry_appended(p, q, slot, size);
    assert(slot_bytes(q, slot) == Some(apply::fresh_entry(top, vector, size)));
}

// ---------------------------------------------------------------------
// An entry as a node.
// ---------------------------------------------------------------------

/// A node of the graph.
pub struct NodeView {
    /// Its vector.
    pub vector: Seq<u32>,
    /// Its top level.
    pub top: u8,
    /// Whether it is live.
    pub live: bool,
    /// Whether it is marked deleted.
    pub tombstoned: bool,
    /// Its neighbors, by level from 0 up to the top.
    pub lists: Seq<Seq<u32>>,
}

/// The top level of an entry.
pub open spec fn top_in(e: Seq<u8>, geo: NodeGeometry) -> u8 {
    node::state_top(e[4 * geo.dim])
}

/// The neighbors on a level of an entry.
pub open spec fn list_in(e: Seq<u8>, geo: NodeGeometry, level: u8) -> Seq<u32> {
    apply::neighbors_in(e, geo, level, "neighbor_iter")->Ok_0
}

/// An entry in order: it has the size of its top level, and no list is over
/// its capacity.
pub open spec fn entry_ok(e: Seq<u8>, geo: NodeGeometry) -> bool {
    &&& 4 * geo.dim < e.len()
    &&& e.len() == geo.size(top_in(e, geo))
    &&& forall|level: u8|
        level <= top_in(e, geo) ==> (#[trigger] apply::neighbors_in(
            e,
            geo,
            level,
            "neighbor_iter",
        )) is Ok
}

/// The node that an entry holds.
pub open spec fn node_in(e: Seq<u8>, geo: NodeGeometry) -> NodeView {
    let b = e[4 * geo.dim];
    NodeView {
        vector: bytes::words_at(e, 0, geo.dim as nat),
        top: top_in(e, geo),
        live: node::state_live(b),
        tombstoned: node::state_tombstoned(b),
        lists: Seq::new((top_in(e, geo) + 1) as nat, |l: int| list_in(e, geo, l as u8)),
    }
}

/// The node of a fresh entry: not live, and without neighbors.
pub open spec fn fresh_node(top: u8, vector: Seq<u32>) -> NodeView {
    NodeView {
        vector,
        top,
        live: false,
        tombstoned: false,
        lists: Seq::new((top + 1) as nat, |l: int| Seq::<u32>::empty()),
    }
}

/// The node with another list on a level.
pub open spec fn with_list(n: NodeView, level: int, list: Seq<u32>) -> NodeView {
    NodeView { lists: n.lists.update(level, list), ..n }
}

/// The node, live.
pub open spec fn made_live(n: NodeView) -> NodeView {
    NodeView { live: true, ..n }
}

/// A fresh entry is in order and holds a fresh node.
pub proof fn lemma_fresh_node(geo: NodeGeometry, top: u8, vector: Seq<u32>)
    requires
        vector.len() == geo.dim,
        top <= 63,
    ensures
        ({
            let e = apply::fresh_entry(top, vector, geo.size(top));
            entry_ok(e, geo) && node_in(e, geo) == fresh_node(top, vector)
        }),
{
    let e = apply::fresh_entry(top, vector, geo.size(top));
    entry_laws::lemma_fresh_entry(geo, top, vector);
    node::lemma_sizes(geo, top);
    let n = node_in(e, geo);
    assert(n.lists =~= fresh_node(top, vector).lists) by {
        assert forall|l: int| 0 <= l < n.lists.len() implies n.lists[l] == Seq::<u32>::empty() by {
            assert(apply::neighbors_in(e, geo, l as u8, "neighbor_iter") == Ok::<
                Seq<u32>,
                HnswError,
            >(Seq::empty()));
        }
    }
}

/// An entry with another region for a level is in order, and holds the node
/// with that list.
pub proof fn lemma_listed_node(e: Seq<u8>, geo: NodeGeometry, level: u8, list: Seq<u32>)
    requires
        entry_ok(e, geo),
        level <= top_in(e, geo),
        list.len() <= geo.cap(level),
    ensures
        ({
            let f = bytes::splice(
                e,
                geo.region_at(level),
                apply::region_bytes(list, geo.cap(level)),
            );
            entry_ok(f, geo) && node_in(f, geo) == with_list(node_in(e, geo), level as int, list)
        }),
{
    let cap = geo.cap(level);
    let region = apply::region_bytes(list, cap);
    let at = geo.region_at(level);
    let f = bytes::splice(e, at, region);
    let top = top_in(e, geo);
    entry_laws::lemma_region_bytes(list, cap);
    entry_laws::lemma_region_fits(geo, level, top);
    assert(f[4 * geo.dim] == e[4 * geo.dim]);
    bytes::lemma_words_same(e, f, 0, geo.dim as nat);
    assert forall|l: u8| l <= top implies (#[trigger] apply::neighbors_in(
        f,
        geo,
        l,
        "neighbor_iter",
    )) == (if l == level {
        Ok::<Seq<u32>, HnswError>(list)
    } else {
        apply::neighbors_in(e, geo, l, "neighbor_iter")
    }) by {
        entry_laws::lemma_region_fits(geo, l, top);
        let from = geo.region_at(l);
        let to = from + node::region_size(geo.cap(l));
        if l == level {
            assert(f.subrange(from, to) =~= region);
        } else {
            if l < level {
                entry_laws::lemma_regions_disjoint(geo, l, level);
            } else {
                entry_laws::lemma_regions_disjoint(geo, level, l);
            }
            assert(f.subrange(from, to) =~= e.subrange(from, to));
        }
    }
    assert forall|l: u8| l <= top implies (#[trigger] apply::neighbors_in(
        f,
        geo,
        l,
        "neighbor_iter",
    )) is Ok by {
        assert(apply::neighbors_in(e, geo, l, "neighbor_iter") is Ok);
    }
    let n = node_in(f, geo);
    let m = with_list(node_in(e, geo), level as int, list);
    assert forall|l: int| 0 <= l < n.lists.len() implies n.lists[l] == m.lists[l] by {
        assert(apply::neighbors_in(f, geo, l as u8, "neighbor_iter") is Ok);
    }
    assert(n.lists =~= m.lists);
}

/// An entry with the live bit set is in order, and holds the node made live.
pub proof fn lemma_live_node(e: Seq<u8>, geo: NodeGeometry)
    requires
        entry_ok(e, geo),
    ensures
        ({
            let f = bytes::splice(e, 4 * geo.dim, seq![node::live_state(e[4 * geo.dim])]);
            entry_ok(f, geo) && node_in(f, geo) == made_live(node_in(e, geo))
        }),
{
    let b = e[4 * geo.dim];
    let f = bytes::splice(e, 4 * geo.dim, seq![node::live_state(b)]);
    node::lemma_state_bits_are_independent(b);
    assert(f[4 * geo.dim] == node::live_state(b));
    let top = top_in(e, geo);
    bytes::lemma_words_same(e, f, 0, geo.dim as nat);
    assert forall|l: u8| l <= top implies (#[trigger] apply::neighbors_in(
        f,
        geo,
        l,
        "neighbor_iter",
    )) == apply::neighbors_in(e, geo, l, "neighbor_iter") by {
        entry_laws::lemma_region_fits(geo, l, top);
        let from = geo.region_at(l);
        let to = from + node::region_size(geo.cap(l));
        assert(f.subrange(from, to) =~= e.subrange(from, to));
    }
    assert forall|l: u8| l <= top implies (#[trigger] apply::neighbors_in(
        f,
        geo,
        l,
        "neighbor_iter",
    )) is Ok by {
        assert(apply::neighbors_in(e, geo, l, "neighbor_iter") is Ok);
    }
    let n = node_in(f, geo);
    let m = made_live(node_in(e, geo));
    assert forall|l: int| 0 <= l < n.lists.len() implies n.lists[l] == m.lists[l] by {
        assert(apply::neighbors_in(f, geo, l as u8, "neighbor_iter") is Ok);
    }
    assert(n.lists =~= m.lists);
}

/// What the accessors read from the slot of an entry in order: its vector,
/// its state, and its list on every level that it has; a level above its top
/// is an error.
pub proof fn lemma_entry_reads(p: Seq<u8>, slot: u16, geo: NodeGeometry, level: u8)
    requires
        slot_bytes(p, slot) matches Some(e) && entry_ok(e, geo),
    ensures
        ({
            let n = node_in(slot_bytes(p, slot)->0, geo);
            let b = slot_bytes(p, slot)->0[4 * geo.dim];
            &&& apply::vector_of(p, slot, geo.dim) == Ok::<Seq<u32>, HnswError>(n.vector)
            &&& forall|what: &'static str| #[trigger]
                apply::state_of(p, slot, geo.dim, what) == Ok::<u8, HnswError>(b)
            &&& level <= n.top ==> apply::neighbors_of(p, slot, geo, level) == Ok::<
                Seq<u32>,
                HnswError,
            >(n.lists[level as int]) && n.lists[level as int].len() <= geo.cap(level)
            &&& level > n.top ==> apply::neighbors_of(p, slot, geo, level) is Err
        }),
{
    let e = slot_bytes(p, slot)->0;
    let n = node_in(e, geo);
    if level <= n.top {
        assert(apply::neighbors_in(e, geo, level, "neighbor_iter") is Ok);
    } else {
        node::lemma_sizes(geo, level);
        node::lemma_sizes(geo, n.top);
        entry_laws::lemma_region_past(geo, n.top, level);
    }
}

/// `q` is the node page `p` with another entry, in order, in `slot`: the
/// entry of the node `n`.
pub open spec fn entry_swapped(
    p: Seq<u8>,
    q: Seq<u8>,
    slot: u16,
    geo: NodeGeometry,
    n: NodeView,
) -> bool {
    &&& node_page_ok(q)
    &&& slot_bytes(q, slot) matches Some(f) && entry_ok(f, geo) && node_in(f, geo) == n
    &&& forall|s: u16| s != slot ==> #[trigger] slot_bytes(q, s) == slot_bytes(p, s)
}

/// Replacing a list on a page, whatever its log position then, swaps the
/// owner's entry for one with that list.
pub proof fn lemma_list_swapped(
    p: Seq<u8>,
    slot: u16,
    geo: NodeGeometry,
    level: u8,
    list: Seq<u32>,
    lsn: Lsn,
)
    requires
        node_page_ok(p),
        slot_bytes(p, slot) matches Some(e) && entry_ok(e, geo) && level <= top_in(e, geo),
        apply::neighbors_set(p, slot, geo, level, list) is Ok,
    ensures
        ({
            let q = storage::with_lsn(apply::neighbors_set(p, slot, geo, level, list)->Ok_0, lsn);
            let e = slot_bytes(p, slot)->0;
            &&& entry_swapped(p, q, slot, geo, with_list(node_in(e, geo), level as int, list))
            &&& list.len() <= geo.cap(level)
            &&& storage::pd_lsn(q) == lsn.0
        }),
{
    let e = slot_bytes(p, slot)->0;
    let (off, len) = apply::lp(p, slot)->0;
    let a = apply::neighbors_set(p, slot, geo, level, list)->Ok_0;
    let region = apply::region_bytes(list, geo.cap(level));
    entry_laws::lemma_region_bytes(list, geo.cap(level));
    entry_laws::lemma_region_fits(geo, level, top_in(e, geo));
    assert(a == bytes::splice(p, off + geo.region_at(level), region));
    lemma_written_inside(p, slot, geo.region_at(level), region);
    lemma_listed_node(e, geo, level, list);
    let q = storage::with_lsn(a, lsn);
    lemma_with_lsn(a, lsn);
    lemma_lsn_keeps_entries(a, q);
    assert forall|s: u16| s != slot implies #[trigger] slot_bytes(q, s) == slot_bytes(p, s) by {
        assert(slot_bytes(q, s) == slot_bytes(a, s));
    }
}

/// Publishing an entry, whatever its page's log position then, swaps it for
/// the live one.
pub proof fn lemma_live_swapped(p: Seq<u8>, slot: u16, geo: NodeGeometry, lsn: Lsn)
    requires
        node_page_ok(p),
        slot_bytes(p, slot) matches Some(e) && entry_ok(e, geo),
        apply::live_published(p, slot, geo.dim) is Ok,
    ensures
        ({
            let q = storage::with_lsn(apply::live_published(p, slot, geo.dim)->Ok_0, lsn);
            let e = slot_bytes(p, slot)->0;
            &&& entry_swapped(p, q, slot, geo, made_live(node_in(e, geo)))
            &&& storage::pd_lsn(q) == lsn.0
        }),
{
    let e = slot_bytes(p, slot)->0;
    let (off, len) = apply::lp(p, slot)->0;
    let a = apply::live_published(p, slot, geo.dim)->Ok_0;
    let b = seq![node::live_state(e[4 * geo.dim])];
    assert(a =~= bytes::splice(p, off + 4 * geo.dim, b));
    lemma_written_inside(p, slot, 4 * geo.dim, b);
    lemma_live_node(e, geo);
    let q = storage::with_lsn(a, lsn);
    lemma_with_lsn(a, lsn);
    lemma_lsn_keeps_entries(a, q);
    assert forall|s: u16| s != slot implies #[trigger] slot_bytes(q, s) == slot_bytes(p, s) by {
        assert(slot_bytes(q, s) == slot_bytes(a, s));
    }
}

} // verus!
