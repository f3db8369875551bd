//! What the replay of each record does, to a page that does not show it yet:
//! when it succeeds, what the page says then, and that nothing else changes.

use vstd::prelude::*;

use vstd::arithmetic::power;

use crate::apply;
use crate::bytes;
use crate::check_laws;
use crate::dir;
use crate::entry_laws;
use crate::error::HnswError;
use crate::graph::Metric;
use crate::index_laws;
use crate::layout;
use crate::meta;
use crate::meta::MetaParams;
use crate::node;
use crate::node::NodeGeometry;
use crate::page;
use crate::page::PAGE_TYPE_DIR;
use crate::page::PAGE_TYPE_META;
use crate::page::PAGE_TYPE_NODE;
use crate::redo;
use crate::redo::StorageError;
use crate::redo::WalRecordType;
use crate::redo_laws;
use crate::rng;
use crate::soundness;
use crate::storage;
use crate::storage::Lsn;
use crate::storage::PageId;
use crate::storage::PayloadView;
use crate::storage::RecordView;
use crate::storage::PAGE_SIZE;
use crate::validate;
use crate::validate::MetaView;

verus! {

/// The record `r` belongs to no transaction, and the page `id`, of type `tag`,
/// does not show it yet.
pub open spec fn awaits(pages: Seq<Seq<u8>>, id: PageId, tag: u16, r: RecordView) -> bool {
    &&& storage::sized(pages)
    &&& r.txn_id.0 == 0
    &&& id.0 < pages.len()
    &&& storage::pd_flags(pages[id.0 as int]) == tag
    &&& storage::pd_lsn(pages[id.0 as int]) < r.lsn.0
}

/// `q` are the pages with another content of the page `id`, at the position
/// `lsn`.
pub open spec fn page_changed(
    pages: Seq<Seq<u8>>,
    q: Seq<Seq<u8>>,
    id: PageId,
    lsn: Lsn,
) -> bool {
    &&& storage::sized(q)
    &&& q.len() == pages.len()
    &&& forall|i: int| 0 <= i < q.len() && i != id.0 ==> q[i] == pages[i]
    &&& storage::pd_lsn(q[id.0 as int]) == lsn.0
    &&& storage::pd_flags(q[id.0 as int]) == storage::pd_flags(pages[id.0 as int])
}

/// The parameters on the page `id`, if it is a meta page that can be read.
pub open spec fn meta_on(pages: Seq<Seq<u8>>, id: PageId) -> Option<MetaParams> {
    if id.0 < pages.len() && meta::meta_of(pages[id.0 as int]) is Ok {
        Some(meta::meta_of(pages[id.0 as int])->Ok_0)
    } else {
        None
    }
}

/// The geometry of the entries of an index with these parameters.
pub open spec fn geometry_of(q: MetaParams) -> NodeGeometry {
    NodeGeometry { dim: q.dim, m: q.m, m_max0: q.m_max0 }
}

/// The state byte of the entry in `slot`, if it has one.
pub open spec fn state_at(p: Seq<u8>, slot: u16, dim: u16) -> Option<u8> {
    match layout::slot_bytes(p, slot) {
        None => None,
        Some(e) => if 4 * dim < e.len() {
            Some(e[4 * dim])
        } else {
            None
        },
    }
}

/// The state byte: six bits of level, then the live bit and the tombstone bit.
pub proof fn lemma_state_byte(b: u8)
    ensures
        node::state_top(b) == b & 0x3f,
        node::state_live(b) <==> b & 0x40 != 0,
        node::state_tombstoned(b) <==> b & 0x80 != 0,
{
    assert(b & 0x3f == b % 64) by (bit_vector);
    assert(b & 0x40 != 0 <==> b / 64 % 2 == 1) by (bit_vector);
    assert(b & 0x80 != 0 <==> b / 128 == 1) by (bit_vector);
}

/// A page at another log position.
proof fn lemma_stamped(p: Seq<u8>, q: Seq<u8>, lsn: Lsn)
    requires
        p.len() == PAGE_SIZE,
        redo_laws::same_identity(p, q),
        storage::pd_lsn(p) < lsn.0,
    ensures
        redo::stamped(q, lsn) == storage::with_lsn(q, lsn),
        layout::same_past_lsn(q, storage::with_lsn(q, lsn)),
        storage::pd_lsn(storage::with_lsn(q, lsn)) == lsn.0,
        storage::pd_flags(q) == storage::pd_flags(p),
        storage::pd_flags(storage::with_lsn(q, lsn)) == storage::pd_flags(p),
        storage::with_lsn(q, lsn).len() == PAGE_SIZE,
{
    redo_laws::lemma_identity(p, q);
    layout::lemma_with_lsn(q, lsn);
    let s = storage::with_lsn(q, lsn);
    assert(s[12] == q[12] && s[13] == q[13]);
}

/// The replay of a record to its page comes down to the page that the record
/// makes.
proof fn lemma_replayed(kind: WalRecordType, pages: Seq<Seq<u8>>, r: RecordView)
    requires
        awaits(pages, redo::target_of(r.payload).0, redo::target_of(r.payload).1, r),
        kind == redo::kind_of(r.payload),
    ensures
        ({
            let id = redo::target_of(r.payload).0;
            let post = redo::post_image(pages, r.payload);
            let out = redo::redone(kind, pages, r);
            &&& out is Ok <==> post is Ok
            &&& out matches Ok(q) ==> {
                &&& page_changed(pages, q, id, r.lsn)
                &&& q[id.0 as int] == storage::with_lsn(post->Ok_0, r.lsn)
                &&& layout::same_past_lsn(post->Ok_0, q[id.0 as int])
                &&& post->Ok_0.len() == PAGE_SIZE
            }
        }),
{
    let id = redo::target_of(r.payload).0;
    let p = pages[id.0 as int];
    assert(p.len() == PAGE_SIZE);
    redo_laws::lemma_post_identity(pages, r.payload);
    if let Ok(q) = redo::post_image(pages, r.payload) {
        lemma_stamped(p, q, r.lsn);
    }
}

/// What the accessors read does not depend on a page's log position.
proof fn lemma_reads_past_lsn(p: Seq<u8>, q: Seq<u8>, slot: u16, geo: NodeGeometry)
    requires
        p.len() == PAGE_SIZE,
        layout::same_past_lsn(p, q),
    ensures
        state_at(q, slot, geo.dim) == state_at(p, slot, geo.dim),
        apply::vector_of(q, slot, geo.dim) == apply::vector_of(p, slot, geo.dim),
        forall|level: u8| #[trigger]
            apply::neighbors_of(q, slot, geo, level) == apply::neighbors_of(p, slot, geo, level),
{
    layout::lemma_lsn_keeps_entries(p, q);
    assert(layout::slot_bytes(q, slot) == layout::slot_bytes(p, slot));
}

// ---------------------------------------------------------------------
// Records that change the state of an entry.
// ---------------------------------------------------------------------

/// `q` says of the entry in `slot` what `p` says, but for its state byte,
/// which is `c`; and where the entries of `p` do not overlap, it says the same
/// of every other entry.
pub open spec fn state_replaced(p: Seq<u8>, q: Seq<u8>, slot: u16, dim: u16, c: u8) -> bool {
    &&& state_at(q, slot, dim) == Some(c)
    &&& apply::vector_of(q, slot, dim) == apply::vector_of(p, slot, dim)
    &&& forall|m: u16, m_max0: u16, level: u8| #[trigger]
        apply::neighbors_of(q, slot, (NodeGeometry { dim, m, m_max0 }), level)
            == apply::neighbors_of(p, slot, (NodeGeometry { dim, m, m_max0 }), level)
    &&& layout::node_page_ok(p) ==> layout::node_page_ok(q) && forall|s: u16|
        s != slot ==> #[trigger] layout::slot_bytes(q, s) == layout::slot_bytes(p, s)
}

/// Replacing the state byte of an entry, whatever the page's log position
/// then, replaces that and nothing else.
proof fn lemma_state_replaced(
    p: Seq<u8>,
    slot: u16,
    dim: u16,
    what: &'static str,
    f: spec_fn(u8) -> u8,
    lsn: Lsn,
)
    requires
        p.len() == PAGE_SIZE,
        apply::state_changed(p, slot, dim, what, f) is Ok,
    ensures
        ({
            let a = apply::state_changed(p, slot, dim, what, f)->Ok_0;
            let q = storage::with_lsn(a, lsn);
            state_replaced(p, q, slot, dim, f(state_at(p, slot, dim)->0))
        }),
{
    let a = apply::state_changed(p, slot, dim, what, f)->Ok_0;
    let q = storage::with_lsn(a, lsn);
    let (off, len) = apply::lp(p, slot)->0;
    let e = p.subrange(off as int, off + len);
    let b = e[4 * dim];
    entry_laws::lemma_lp_bounds(p, slot);
    entry_laws::lemma_lp_frame(p, a, off as int, slot);
    layout::lemma_with_lsn(a, lsn);
    let g = a.subrange(off as int, off + len);
    assert forall|i: int| 0 <= i < len && i != 4 * dim implies e[i] == g[i] by {}
    bytes::lemma_words_same(e, g, 0, dim as nat);
    lemma_reads_past_lsn(a, q, slot, NodeGeometry { dim, m: 0, m_max0: 0 });
    assert forall|m: u16, m_max0: u16, level: u8| #[trigger]
        apply::neighbors_of(q, slot, (NodeGeometry { dim, m, m_max0 }), level)
            == apply::neighbors_of(p, slot, (NodeGeometry { dim, m, m_max0 }), level) by {
        let geo = NodeGeometry { dim, m, m_max0 };
        lemma_reads_past_lsn(a, q, slot, geo);
        entry_laws::lemma_region_fits(geo, level, level);
        let from = geo.region_at(level);
        let to = from + node::region_size(geo.cap(level));
        if to <= len {
            assert(e.subrange(from, to) =~= g.subrange(from, to));
        }
        assert(apply::neighbors_of(a, slot, geo, level) == apply::neighbors_of(
            p,
            slot,
            geo,
            level,
        ));
    }
    if layout::node_page_ok(p) {
        let c = seq![f(b)];
        assert(a =~= bytes::splice(p, off + 4 * dim, c));
        layout::lemma_written_inside(p, slot, 4 * dim as int, c);
        layout::lemma_lsn_keeps_entries(a, q);
        assert forall|s: u16| s != slot implies #[trigger] layout::slot_bytes(q, s)
            == layout::slot_bytes(p, s) by {
            assert(layout::slot_bytes(a, s) == layout::slot_bytes(p, s));
        }
    }
}

/// A tombstone record is replayed if and only if its meta page is another page
/// that can be read and has the record's dimension, and its slot holds a live
/// entry. The entry is then marked deleted, in whatever slot: its other state,
/// its vector, its lists and every other entry are as before.
pub proof fn lemma_tombstone_replayed(
    pages: Seq<Seq<u8>>,
    r: RecordView,
    meta_page_id: PageId,
    page_id: PageId,
    slot_id: u16,
    node_id: u32,
    dim: u16,
)
    requires
        r.payload == (PayloadView::NodeTombstone { meta_page_id, page_id, slot_id, node_id, dim }),
        awaits(pages, page_id, PAGE_TYPE_NODE, r),
    ensures
        ({
            let p = pages[page_id.0 as int];
            let b = state_at(p, slot_id, dim);
            let out = redo::redone(WalRecordType::HnswNodeTombstone, pages, r);
            &&& out is Ok <==> {
                &&& meta_page_id != page_id
                &&& meta_on(pages, meta_page_id) matches Some(q) && q.dim == dim
                &&& b is Some
                &&& b->0 & 0x40 != 0
            }
            &&& out matches Ok(q) ==> {
                &&& page_changed(pages, q, page_id, r.lsn)
                &&& state_replaced(p, q[page_id.0 as int], slot_id, dim, b->0 | 0x80)
            }
        }),
{
    let p = pages[page_id.0 as int];
    assert(p.len() == PAGE_SIZE);
    reveal(redo::post_image);
    lemma_replayed(WalRecordType::HnswNodeTombstone, pages, r);
    if apply::lp(p, slot_id) is Some {
        entry_laws::lemma_lp_bounds(p, slot_id);
    }
    if let Some(b) = state_at(p, slot_id, dim) {
        lemma_state_byte(b);
        let f = |b: u8| node::tombstone_state(b);
        lemma_state_replaced(p, slot_id, dim, "apply_tombstone", f, r.lsn);
        assert(b | 0x80 == if b / 128 == 1 {
            b
        } else {
            (b + 128) as u8
        }) by (bit_vector);
    }
}

/// A record that makes an entry live is replayed if and only if its meta page
/// is another page that can be read and has the record's dimension, and its
/// slot holds an entry. The entry is then live, and all else as before.
pub proof fn lemma_publish_replayed(
    pages: Seq<Seq<u8>>,
    r: RecordView,
    meta_page_id: PageId,
    page_id: PageId,
    slot_id: u16,
    node_id: u32,
    dim: u16,
)
    requires
        r.payload == (PayloadView::PublishLive { meta_page_id, page_id, slot_id, node_id, dim }),
        awaits(pages, page_id, PAGE_TYPE_NODE, r),
    ensures
        ({
            let p = pages[page_id.0 as int];
            let b = state_at(p, slot_id, dim);
            let out = redo::redone(WalRecordType::HnswPublishLive, pages, r);
            &&& out is Ok <==> {
                &&& meta_page_id != page_id
                &&& meta_on(pages, meta_page_id) matches Some(q) && q.dim == dim
                &&& b is Some
            }
            &&& out matches Ok(q) ==> {
                &&& page_changed(pages, q, page_id, r.lsn)
                &&& state_replaced(p, q[page_id.0 as int], slot_id, dim, b->0 | 0x40)
            }
        }),
{
    let p = pages[page_id.0 as int];
    assert(p.len() == PAGE_SIZE);
    reveal(redo::post_image);
    lemma_replayed(WalRecordType::HnswPublishLive, pages, r);
    if apply::lp(p, slot_id) is Some {
        entry_laws::lemma_lp_bounds(p, slot_id);
    }
    if let Some(b) = state_at(p, slot_id, dim) {
        let f = |b: u8| node::live_state(b);
        lemma_state_replaced(p, slot_id, dim, "publish_live", f, r.lsn);
        assert(b | 0x40 == if b / 64 % 2 == 1 {
            b
        } else {
            (b + 64) as u8
        }) by (bit_vector);
    }
}

// ---------------------------------------------------------------------
// Records that create an entry or replace a list.
// ---------------------------------------------------------------------

/// Where the list of a level ends in an entry: after the vector, the state
/// byte, and the lists of the levels up to it.
pub open spec fn list_end(q: MetaParams, level: u8) -> int {
    check_laws::entry_bytes(q.dim, q.m, q.m_max0, level as nat)
}

/// A record with a neighbor list is replayed if and only if its meta page is
/// another page that can be read, its slot holds an entry that has the level
/// and room for its list, and the list is within `M_max0` ids on level 0 and
/// `M` above, strictly ascending and without its owner. The level then holds
/// exactly the list, and all else is as before.
pub proof fn lemma_list_replayed(
    pages: Seq<Seq<u8>>,
    r: RecordView,
    meta_page_id: PageId,
    page_id: PageId,
    slot_id: u16,
    node_id: u32,
    level: u8,
    neighbors: Seq<u32>,
)
    requires
        r.payload == (PayloadView::SetNeighbors {
            meta_page_id,
            page_id,
            slot_id,
            node_id,
            level,
            neighbors,
        }),
        awaits(pages, page_id, PAGE_TYPE_NODE, r),
    ensures
        ({
            let p = pages[page_id.0 as int];
            let out = redo::redone(WalRecordType::HnswSetNeighbors, pages, r);
            &&& out is Ok <==> {
                &&& meta_page_id != page_id
                &&& meta_on(pages, meta_page_id) matches Some(q) && {
                    &&& state_at(p, slot_id, q.dim) matches Some(b) && level <= b & 0x3f
                    &&& list_end(q, level) <= layout::slot_bytes(p, slot_id)->0.len()
                    &&& neighbors.len() <= if level == 0 {
                        q.m_max0
                    } else {
                        q.m
                    }
                    &&& forall|i: int, j: int|
                        0 <= i < j < neighbors.len() ==> neighbors[i] < neighbors[j]
                    &&& forall|i: int| 0 <= i < neighbors.len() ==> neighbors[i] != node_id
                }
            }
            &&& out matches Ok(pages1) ==> {
                let geo = geometry_of(meta_on(pages, meta_page_id)->0);
                let q = pages1[page_id.0 as int];
                &&& page_changed(pages, pages1, page_id, r.lsn)
                &&& apply::neighbors_of(q, slot_id, geo, level) == Ok::<Seq<u32>, HnswError>(
                    neighbors,
                )
                &&& forall|other: u8|
                    other != level ==> #[trigger] apply::neighbors_of(q, slot_id, geo, other)
                        == apply::neighbors_of(p, slot_id, geo, other)
                &&& apply::vector_of(q, slot_id, geo.dim) == apply::vector_of(p, slot_id, geo.dim)
                &&& state_at(q, slot_id, geo.dim) == state_at(p, slot_id, geo.dim)
                &&& layout::node_page_ok(p) ==> layout::node_page_ok(q) && forall|s: u16|
                    s != slot_id ==> #[trigger] layout::slot_bytes(q, s) == layout::slot_bytes(
                        p,
                        s,
                    )
            }
        }),
{
    let p = pages[page_id.0 as int];
    assert(p.len() == PAGE_SIZE);
    reveal(redo::post_image);
    lemma_replayed(WalRecordType::HnswSetNeighbors, pages, r);
    if apply::lp(p, slot_id) is Some {
        entry_laws::lemma_lp_bounds(p, slot_id);
    }
    if let Some(q) = meta_on(pages, meta_page_id) {
        let geo = geometry_of(q);
        let view = MetaView::spec_of(q);
        node::lemma_sizes(geo, level);
        assert(list_end(q, level) == geo.region_at(level) + node::region_size(geo.cap(level))) by {
            lemma_list_end(q, level);
        }
        if let Some(b) = state_at(p, slot_id, q.dim) {
            lemma_state_byte(b);
            check_laws::lemma_set_neighbors_accepted(
                view,
                node_id,
                level,
                neighbors.len() as u16,
                neighbors,
                node::state_top(b),
            );
        }
        if let Ok(a) = apply::neighbors_set(p, slot_id, geo, level, neighbors) {
            lemma_list_replaced(p, slot_id, geo, level, neighbors, r.lsn);
        }
    }
}

/// The list of a level ends where its region ends.
proof fn lemma_list_end(q: MetaParams, level: u8)
    ensures
        list_end(q, level) == geometry_of(q).region_at(level) + node::region_size(
            geometry_of(q).cap(level),
        ),
{
    let w = 2 + 4 * q.m as int;
    assert(level == 0 ==> level * w == 0);
    assert(level > 0 ==> level * w == (level - 1) * w + w) by (nonlinear_arith);
}

/// Replacing a list, whatever the page's log position then, replaces that and
/// nothing else.
proof fn lemma_list_replaced(
    p: Seq<u8>,
    slot: u16,
    geo: NodeGeometry,
    level: u8,
    list: Seq<u32>,
    lsn: Lsn,
)
    requires
        p.len() == PAGE_SIZE,
        apply::neighbors_set(p, slot, geo, level, list) is Ok,
    ensures
        ({
            let q = storage::with_lsn(apply::neighbors_set(p, slot, geo, level, list)->Ok_0, lsn);
            &&& apply::neighbors_of(q, slot, geo, level) == Ok::<Seq<u32>, HnswError>(list)
            &&& forall|other: u8|
                other != level ==> #[trigger] apply::neighbors_of(q, slot, geo, other)
                    == apply::neighbors_of(p, slot, geo, other)
            &&& apply::vector_of(q, slot, geo.dim) == apply::vector_of(p, slot, geo.dim)
            &&& state_at(q, slot, geo.dim) == state_at(p, slot, geo.dim)
            &&& layout::node_page_ok(p) ==> layout::node_page_ok(q) && forall|s: u16|
                s != slot ==> #[trigger] layout::slot_bytes(q, s) == layout::slot_bytes(p, s)
        }),
{
    let a = apply::neighbors_set(p, slot, geo, level, list)->Ok_0;
    let q = storage::with_lsn(a, lsn);
    let (off, len) = apply::lp(p, slot)->0;
    let region = apply::region_bytes(list, geo.cap(level));
    entry_laws::lemma_set_neighbors_reads_back(p, slot, geo, level, list, list);
    layout::lemma_with_lsn(a, lsn);
    lemma_reads_past_lsn(a, q, slot, geo);
    let other = if level == 0 {
        1u8
    } else {
        0u8
    };
    entry_laws::lemma_set_neighbors_keeps_the_rest(p, slot, geo, level, list, other, "");
    assert forall|other: u8| other != level implies #[trigger] apply::neighbors_of(
        q,
        slot,
        geo,
        other,
    ) == apply::neighbors_of(p, slot, geo, other) by {
        entry_laws::lemma_set_neighbors_keeps_the_rest(p, slot, geo, level, list, other, "");
    }
    entry_laws::lemma_lp_bounds(p, slot);
    entry_laws::lemma_lp_frame(p, a, off as int, slot);
    entry_laws::lemma_region_bytes(list, geo.cap(level));
    entry_laws::lemma_region_fits(geo, level, level);
    assert(state_at(a, slot, geo.dim) == state_at(p, slot, geo.dim)) by {
        assert(apply::state_of(a, slot, geo.dim, "") == apply::state_of(p, slot, geo.dim, ""));
    }
    if layout::node_page_ok(p) {
        layout::lemma_written_inside(p, slot, geo.region_at(level), region);
        layout::lemma_lsn_keeps_entries(a, q);
        assert forall|s: u16| s != slot implies #[trigger] layout::slot_bytes(q, s)
            == layout::slot_bytes(p, s) by {
            assert(layout::slot_bytes(a, s) == layout::slot_bytes(p, s));
        }
    }
}

/// A node page takes an entry of `size` bytes into `slot`: the slot holds an
/// entry of that size that is not live, or is the first free one, and the
/// entry and its line pointer fit between the line pointers and the entries.
pub open spec fn takes_entry(p: Seq<u8>, slot: u16, dim: u16, size: int) -> bool {
    let lower = storage::pd_lower(p) as int;
    let upper = storage::pd_upper(p) as int;
    let special = storage::pd_special(p) as int;
    &&& 32 <= lower <= upper <= special <= 8192
    &&& (lower - 32) % 4 == 0
    &&& match layout::slot_bytes(p, slot) {
        Some(e) => e.len() == size && e[4 * dim] & 0x40 == 0,
        None => 32 + 4 * slot == lower && size + 4 <= upper - lower,
    }
}

/// A record that creates an entry is replayed if and only if its meta page is
/// another page that can be read, the record has its dimension, a vector that
/// its metric can serve and a level that a draw can give, and the page takes
/// the entry. The slot then holds an entry with the vector and the level,
/// neither live nor deleted and without neighbors; an entry that is added
/// leaves every other as it was.
pub proof fn lemma_node_replayed(
    pages: Seq<Seq<u8>>,
    r: RecordView,
    meta_page_id: PageId,
    page_id: PageId,
    slot_id: u16,
    node_id: u32,
    level: u8,
    dim: u16,
    vector: Seq<u32>,
)
    requires
        r.payload == (PayloadView::NodeInit {
            meta_page_id,
            page_id,
            slot_id,
            node_id,
            level,
            dim,
            vector,
        }),
        awaits(pages, page_id, PAGE_TYPE_NODE, r),
    ensures
        ({
            let p = pages[page_id.0 as int];
            let out = redo::redone(WalRecordType::HnswNodeInit, pages, r);
            &&& out is Ok <==> {
                &&& meta_page_id != page_id
                &&& meta_on(pages, meta_page_id) matches Some(q) && {
                    &&& dim == q.dim
                    &&& vector.len() == dim
                    &&& check_laws::usable_vector(vector)
                    &&& q.metric == Metric::Cosine ==> check_laws::nonzero_vector(vector)
                    &&& power::pow(q.m as int, level as nat) <= 0x20_0000_0000_0000
                    &&& takes_entry(
                        p,
                        slot_id,
                        dim,
                        check_laws::entry_bytes(q.dim, q.m, q.m_max0, level as nat),
                    )
                }
            }
            &&& out matches Ok(pages1) ==> {
                let geo = geometry_of(meta_on(pages, meta_page_id)->0);
                let q = pages1[page_id.0 as int];
                &&& page_changed(pages, pages1, page_id, r.lsn)
                &&& apply::vector_of(q, slot_id, geo.dim) == Ok::<Seq<u32>, HnswError>(vector)
                &&& state_at(q, slot_id, geo.dim) == Some(level)
                &&& level <= 53
                &&& forall|l: u8|
                    l <= level ==> #[trigger] apply::neighbors_of(q, slot_id, geo, l) == Ok::<
                        Seq<u32>,
                        HnswError,
                    >(Seq::empty())
                &&& layout::node_page_ok(p) && layout::slot_bytes(p, slot_id) is None
                    ==> layout::node_page_ok(q) && forall|s: u16|
                    s != slot_id ==> #[trigger] layout::slot_bytes(q, s) == layout::slot_bytes(
                        p,
                        s,
                    )
            }
        }),
{
    let p = pages[page_id.0 as int];
    assert(p.len() == PAGE_SIZE);
    lemma_node_post(pages, r, meta_page_id, page_id, slot_id, node_id, level, dim, vector);
    lemma_replayed(WalRecordType::HnswNodeInit, pages, r);
    if let Some(q) = meta_on(pages, meta_page_id) {
        let geo = geometry_of(q);
        let size = geo.size(level);
        meta::lemma_read_meta_is_valid(pages[meta_page_id.0 as int]);
        check_laws::lemma_node_init_accepted(MetaView::spec_of(q), dim, level, vector);
        check_laws::lemma_top_level(q.m as nat, level as nat);
        rng::lemma_top_level_bound(q.m as nat);
        node::lemma_sizes(geo, level);
        if validate::node_init_check(MetaView::spec_of(q), dim, level, vector) is Ok {
            lemma_node_taken(p, slot_id, level, geo, vector);
        }
        if apply::node_applied(p, slot_id, level, geo, vector) is Ok {
            lemma_node_made(p, slot_id, level, geo, vector, r.lsn);
        }
    }
}

/// The page that a record which creates an entry makes.
proof fn lemma_node_post(
    pages: Seq<Seq<u8>>,
    r: RecordView,
    meta_page_id: PageId,
    page_id: PageId,
    slot_id: u16,
    node_id: u32,
    level: u8,
    dim: u16,
    vector: Seq<u32>,
)
    requires
        r.payload == (PayloadView::NodeInit {
            meta_page_id,
            page_id,
            slot_id,
            node_id,
            level,
            dim,
            vector,
        }),
    ensures
        ({
            let post = redo::post_image(pages, r.payload);
            let q = meta_on(pages, meta_page_id)->0;
            let made = apply::node_applied(
                pages[page_id.0 as int],
                slot_id,
                level,
                geometry_of(q),
                vector,
            );
            &&& post is Ok <==> {
                &&& meta_page_id != page_id
                &&& meta_on(pages, meta_page_id) is Some
                &&& validate::node_init_check(MetaView::spec_of(q), dim, level, vector) is Ok
                &&& made is Ok
            }
            &&& post is Ok ==> post->Ok_0 == made->Ok_0
        }),
{
    reveal(redo::post_image);
}

/// Applying an entry, whatever the page's log position then, makes that entry
/// and, in a free slot, changes no other.
proof fn lemma_node_made(
    p: Seq<u8>,
    slot: u16,
    level: u8,
    geo: NodeGeometry,
    vector: Seq<u32>,
    lsn: Lsn,
)
    requires
        p.len() == PAGE_SIZE,
        apply::node_applied(p, slot, level, geo, vector) is Ok,
        apply::node_applied(p, slot, level, geo, vector)->Ok_0.len() == PAGE_SIZE,
    ensures
        ({
            let q = storage::with_lsn(
                apply::node_applied(p, slot, level, geo, vector)->Ok_0,
                lsn,
            );
            &&& apply::vector_of(q, slot, geo.dim) == Ok::<Seq<u32>, HnswError>(vector)
            &&& state_at(q, slot, geo.dim) == Some(level)
            &&& forall|l: u8|
                l <= level ==> #[trigger] apply::neighbors_of(q, slot, geo, l) == Ok::<
                    Seq<u32>,
                    HnswError,
                >(Seq::empty())
            &&& layout::node_page_ok(p) && layout::slot_bytes(p, slot) is None
                ==> layout::node_page_ok(q) && forall|s: u16|
                s != slot ==> #[trigger] layout::slot_bytes(q, s) == layout::slot_bytes(p, s)
        }),
{
    let a = apply::node_applied(p, slot, level, geo, vector)->Ok_0;
    let q = storage::with_lsn(a, lsn);
    entry_laws::lemma_applied_node_reads_back(p, slot, level, geo, vector);
    assert(entry_laws::holds_fresh_entry(a, slot, level, geo, vector));
    assert(apply::state_of(a, slot, geo.dim, "") == Ok::<u8, HnswError>(level));
    layout::lemma_with_lsn(a, lsn);
    lemma_reads_past_lsn(a, q, slot, geo);
    if layout::node_page_ok(p) && apply::lp(p, slot) is None {
        layout::lemma_created_entry(p, slot, level, geo, vector);
        layout::lemma_lsn_keeps_entries(a, q);
        assert forall|s: u16| s != slot implies #[trigger] layout::slot_bytes(q, s)
            == layout::slot_bytes(p, s) by {
            assert(layout::slot_bytes(a, s) == layout::slot_bytes(p, s));
        }
    }
}

/// An entry is applied if and only if the page takes it.
proof fn lemma_node_taken(
    p: Seq<u8>,
    slot: u16,
    level: u8,
    geo: NodeGeometry,
    vector: Seq<u32>,
)
    requires
        p.len() == PAGE_SIZE,
        vector.len() == geo.dim,
        level <= 63,
    ensures
        apply::node_applied(p, slot, level, geo, vector) is Ok <==> takes_entry(
            p,
            slot,
            geo.dim,
            geo.size(level),
        ),
{
    node::lemma_sizes(geo, level);
    if let Some((off, len)) = apply::lp(p, slot) {
        entry_laws::lemma_lp_bounds(p, slot);
        if len == geo.size(level) {
            lemma_state_byte(p[off + 4 * geo.dim]);
            assert(p.subrange(off as int, off + len)[4 * geo.dim as int] == p[off + 4 * geo.dim]);
        }
    }
}

// ---------------------------------------------------------------------
// Records of the meta page and of the directory.
// ---------------------------------------------------------------------

/// A record with an entry point is replayed if and only if the meta page can
/// be read and its level is one that a draw can give. The meta page then has
/// that entry point and that level, and all else is as before.
pub proof fn lemma_entry_point_replayed(
    pages: Seq<Seq<u8>>,
    r: RecordView,
    meta_page_id: PageId,
    entry_point: u32,
    max_level: u8,
)
    requires
        r.payload == (PayloadView::MetaUpdate { meta_page_id, entry_point, max_level }),
        awaits(pages, meta_page_id, PAGE_TYPE_META, r),
        entry_point == 0xffff_ffff ==> max_level == 0,
    ensures
        ({
            let out = redo::redone(WalRecordType::HnswMetaUpdate, pages, r);
            let before = meta_on(pages, meta_page_id);
            &&& out is Ok <==> {
                &&& before is Some
                &&& power::pow(before->0.m as int, max_level as nat) <= 0x20_0000_0000_0000
            }
            &&& out matches Ok(pages1) ==> {
                &&& page_changed(pages, pages1, meta_page_id, r.lsn)
                &&& meta_on(pages1, meta_page_id) == Some(
                    MetaParams { entry_point, max_level, ..before->0 },
                )
            }
        }),
{
    let p = pages[meta_page_id.0 as int];
    assert(p.len() == PAGE_SIZE);
    reveal(redo::post_image);
    lemma_replayed(WalRecordType::HnswMetaUpdate, pages, r);
    if let Some(q) = meta_on(pages, meta_page_id) {
        meta::lemma_read_meta_is_valid(p);
        check_laws::lemma_top_level(q.m as nat, max_level as nat);
        rng::lemma_top_level_bound(q.m as nat);
        if max_level <= rng::top_level(q.m as nat) {
            index_laws::lemma_meta_page(p, q, entry_point, max_level, r.lsn);
        }
    }
}

/// A record that publishes a place is replayed if and only if its target is
/// another page, a node page with an entry in the slot, and the directory page
/// either ends just before the node and has room, or already has the place.
/// The page then has the place under the node's number, and all else is as
/// before.
pub proof fn lemma_place_replayed(
    pages: Seq<Seq<u8>>,
    r: RecordView,
    dir_tail_page: PageId,
    node_id: u32,
    target_page: PageId,
    target_slot: u16,
)
    requires
        r.payload == (PayloadView::DirAppend {
            dir_tail_page,
            node_id,
            target_page,
            target_slot,
        }),
        awaits(pages, dir_tail_page, PAGE_TYPE_DIR, r),
    ensures
        ({
            let p = pages[dir_tail_page.0 as int];
            let t = pages[target_page.0 as int];
            let base = 813 * page::spec_dir_ordinal(p);
            let count = page::spec_dir_count(p);
            let out = redo::redone(WalRecordType::HnswDirAppend, pages, r);
            &&& out is Ok <==> {
                &&& target_page != dir_tail_page
                &&& target_page.0 < pages.len()
                &&& storage::pd_flags(t) == PAGE_TYPE_NODE
                &&& layout::slot_bytes(t, target_slot) is Some
                &&& count <= 813
                &&& {
                    ||| node_id == base + count && count < 813
                    ||| base <= node_id < base + count && dir::target(p, node_id - base) == (
                        target_page,
                        target_slot,
                    )
                }
            }
            &&& out matches Ok(pages1) ==> {
                let q = pages1[dir_tail_page.0 as int];
                &&& page_changed(pages, pages1, dir_tail_page, r.lsn)
                &&& page::spec_dir_ordinal(q) == page::spec_dir_ordinal(p)
                &&& page::spec_dir_next(q) == page::spec_dir_next(p)
                &&& page::spec_dir_count(q) == if node_id == base + count {
                    count + 1
                } else {
                    count as int
                }
                &&& dir::target(q, node_id - base) == (target_page, target_slot)
                &&& forall|i: int| 0 <= i < count ==> #[trigger] dir::target(q, i) == dir::target(p, i)
            }
        }),
{
    let p = pages[dir_tail_page.0 as int];
    assert(p.len() == PAGE_SIZE);
    reveal(redo::post_image);
    lemma_replayed(WalRecordType::HnswDirAppend, pages, r);
    let base = 813 * page::spec_dir_ordinal(p);
    let count = page::spec_dir_count(p);
    if let Ok((position, a)) = apply::dir_appended(p, node_id, target_page, target_slot) {
        let q = storage::with_lsn(a, r.lsn);
        entry_laws::lemma_dir_append_reads_back(p, node_id, target_page, target_slot, 0);
        layout::lemma_with_lsn(a, r.lsn);
        soundness::lemma_dir_page_same(a, q);
        assert(dir::target(a, position as int) == (target_page, target_slot));
        assert forall|i: int| 0 <= i < count implies #[trigger] dir::target(q, i) == dir::target(
            p,
            i,
        ) by {
            entry_laws::lemma_dir_append_reads_back(
                p,
                node_id,
                target_page,
                target_slot,
                i as u32,
            );
            assert(dir::target(a, i) == dir::target(p, i));
        }
    }
}

/// A record that links a directory page is replayed if and only if the tail is
/// full and has no successor, and the page that follows is another directory
/// page with the next ordinal. The tail then names it, and all else is as
/// before.
pub proof fn lemma_link_replayed(
    pages: Seq<Seq<u8>>,
    r: RecordView,
    old_tail_page: PageId,
    next_page: PageId,
)
    requires
        r.payload == (PayloadView::DirLink { old_tail_page, next_page }),
        awaits(pages, old_tail_page, PAGE_TYPE_DIR, r),
    ensures
        ({
            let p = pages[old_tail_page.0 as int];
            let n = pages[next_page.0 as int];
            let out = redo::redone(WalRecordType::HnswDirLink, pages, r);
            &&& out is Ok <==> {
                &&& page::spec_dir_next(p).0 == 0xffff_ffff_ffff_ffff
                &&& page::spec_dir_count(p) == 813
                &&& next_page != old_tail_page
                &&& next_page.0 < pages.len()
                &&& storage::pd_flags(n) == PAGE_TYPE_DIR
                &&& page::spec_dir_ordinal(n) == page::spec_dir_ordinal(p) + 1
            }
            &&& out matches Ok(pages1) ==> {
                let q = pages1[old_tail_page.0 as int];
                &&& page_changed(pages, pages1, old_tail_page, r.lsn)
                &&& page::spec_dir_next(q) == next_page
                &&& page::spec_dir_ordinal(q) == page::spec_dir_ordinal(p)
                &&& page::spec_dir_count(q) == page::spec_dir_count(p)
                &&& forall|i: int| 0 <= i < 813 ==> #[trigger] dir::target(q, i) == dir::target(p, i)
            }
        }),
{
    let p = pages[old_tail_page.0 as int];
    assert(p.len() == PAGE_SIZE);
    reveal(redo::post_image);
    lemma_replayed(WalRecordType::HnswDirLink, pages, r);
    let a = apply::dir_linked(p, next_page);
    let q = storage::with_lsn(a, r.lsn);
    entry_laws::lemma_dir_link(p, next_page, 0);
    layout::lemma_with_lsn(a, r.lsn);
    soundness::lemma_dir_page_same(a, q);
    if page::spec_dir_count(p) == 813 {
        assert forall|i: int| 0 <= i < 813 implies #[trigger] dir::target(q, i) == dir::target(
            p,
            i,
        ) by {
            entry_laws::lemma_dir_link(p, next_page, i as u32);
            assert(dir::target(a, i) == dir::target(p, i));
        }
    }
}

/// A record of a transaction, of another kind than its handler's, or of a page
/// that is not there or has another type, is never replayed. One that its page
/// already shows changes nothing, whatever else it says.
pub proof fn lemma_replay_guards(kind: WalRecordType, pages: Seq<Seq<u8>>, r: RecordView)
    ensures
        ({
            let (id, tag, what) = redo::target_of(r.payload);
            let out = redo::redone(kind, pages, r);
            let fit = {
                &&& r.txn_id.0 == 0
                &&& redo::kind_of(r.payload) == kind
                &&& id.0 < pages.len()
                &&& storage::pd_flags(pages[id.0 as int]) == tag
            };
            &&& !fit ==> out is Err
            &&& fit && storage::pd_lsn(pages[id.0 as int]) >= r.lsn.0 ==> out == Ok::<
                Seq<Seq<u8>>,
                StorageError,
            >(pages)
        }),
{
}

} // verus!
