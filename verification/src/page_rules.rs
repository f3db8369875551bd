//! Where things stand on a page, in bytes.

use vstd::prelude::*;

use crate::apply;
use crate::bytes;
use crate::check_laws;
use crate::dir;
use crate::graph::Metric;
use crate::graph::NeighborSelection;
use crate::layout;
use crate::meta;
use crate::meta::MetaParams;
use crate::model;
use crate::model::ProbeMark;
use crate::model::World;
use crate::node;
use crate::node::NodeGeometry;
use crate::page;
use crate::storage;
use crate::storage::PAGE_SIZE;
use crate::storage::PayloadView;

verus! {

/// The header of every page: the log position in bytes 0 to 7, the type in 12
/// and 13, and then the end of the line pointers, the start of the entries and
/// their end, two bytes each. Types are 1 for nodes, 2 for the directory and 3
/// for the meta page.
pub proof fn lemma_page_header(p: Seq<u8>)
    ensures
        storage::pd_lsn(p) == bytes::le64(p, 0),
        storage::pd_flags(p) == bytes::le16(p, 12),
        storage::pd_lower(p) == bytes::le16(p, 14),
        storage::pd_upper(p) == bytes::le16(p, 16),
        storage::pd_special(p) == bytes::le16(p, 18),
        page::PAGE_TYPE_NODE == 1,
        page::PAGE_TYPE_DIR == 2,
        page::PAGE_TYPE_META == 3,
        PAGE_SIZE == 8192,
{
}

/// A line pointer: 15 bits of offset, two of state, of which 1 is an entry in
/// use, and 15 of length.
pub proof fn lemma_line_pointer_bits(raw: u32)
    ensures
        storage::lp_off(raw) == raw & 0x7fff,
        storage::lp_normal(raw) <==> (raw >> 15) & 3 == 1,
        storage::lp_len(raw) == raw >> 17,
{
    assert(raw & 0x7fff == raw % 0x8000) by (bit_vector);
    assert((raw >> 15) & 3 == raw / 0x8000 % 4) by (bit_vector);
    assert(raw >> 17 == raw / 0x2_0000) by (bit_vector);
}

/// The entry of a slot: the four bytes at `32 + 4 * slot` point to it. There
/// is one if and only if the header is that of a slotted page, the pointer is
/// one of its line pointers and in use, and the entry lies where entries do.
pub proof fn lemma_slot_bytes(p: Seq<u8>, slot: u16)
    requires
        p.len() == PAGE_SIZE,
    ensures
        ({
            let lower = bytes::le16(p, 14);
            let upper = bytes::le16(p, 16);
            let special = bytes::le16(p, 18);
            let raw = bytes::le32(p, 32 + 4 * slot);
            let off = (raw & 0x7fff) as int;
            let len = (raw >> 17) as int;
            &&& layout::slot_bytes(p, slot) is Some <==> {
                &&& 32 <= lower <= upper <= special <= 8192
                &&& (lower - 32) % 4 == 0
                &&& 36 + 4 * slot <= lower
                &&& (raw >> 15) & 3 == 1
                &&& upper <= off
                &&& off + len <= special
            }
            &&& layout::slot_bytes(p, slot) is Some ==> layout::slot_bytes(p, slot)->0
                == p.subrange(off, off + len)
        }),
{
    lemma_line_pointer_bits(bytes::le32(p, 32 + 4 * slot));
}

/// An entry: the vector's components, four bytes each, the state byte, and for
/// each level a region for its list: the count in two bytes, and then the ids,
/// with room for `M_max0` on level 0 and `M` above.
pub proof fn lemma_entry_layout(p: Seq<u8>, slot: u16, geo: NodeGeometry, level: u8)
    requires
        layout::slot_bytes(p, slot) is Some,
    ensures
        ({
            let e = layout::slot_bytes(p, slot)->0;
            let room = if level == 0 {
                geo.m_max0 as int
            } else {
                geo.m as int
            };
            let from = if level == 0 {
                4 * geo.dim + 1
            } else {
                4 * geo.dim + 1 + (2 + 4 * geo.m_max0) + (level - 1) * (2 + 4 * geo.m)
            };
            let v = apply::vector_of(p, slot, geo.dim);
            let s = apply::state_of(p, slot, geo.dim, "");
            let l = apply::neighbors_of(p, slot, geo, level);
            &&& v is Ok <==> 4 * geo.dim <= e.len()
            &&& v is Ok ==> v->Ok_0 == bytes::words_at(e, 0, geo.dim as nat)
            &&& s is Ok <==> 4 * geo.dim < e.len()
            &&& s is Ok ==> s->Ok_0 == e[4 * geo.dim as int]
            &&& l is Ok <==> from + 2 + 4 * room <= e.len() && bytes::le16(e, from) <= room
            &&& l is Ok ==> l->Ok_0 == bytes::words_at(e, from + 2, bytes::le16(e, from) as nat)
        }),
{
    let e = layout::slot_bytes(p, slot)->0;
    node::lemma_sizes(geo, level);
    let from = geo.region_at(level);
    let to = from + node::region_size(geo.cap(level));
    if to <= e.len() {
        let r = e.subrange(from, to);
        assert(r[0] == e[from] && r[1] == e[from + 1]);
        let n = bytes::le16(e, from);
        if n <= geo.cap(level) {
            assert(bytes::words_at(r, 2, n as nat) =~= bytes::words_at(e, from + 2, n as nat))
                by {
                assert forall|i: int| 0 <= i < n implies bytes::words_at(r, 2, n as nat)[i]
                    == bytes::words_at(e, from + 2, n as nat)[i] by {
                    bytes::lemma_subrange_le32(e, from, to, 2 + 4 * i);
                }
            }
        }
    }
}

/// The bytes of an entry are as many as its vector and its levels need.
pub proof fn lemma_entry_size(geo: NodeGeometry, level: u8)
    ensures
        geo.size(level) == check_laws::entry_bytes(geo.dim, geo.m, geo.m_max0, level as nat),
{
}

/// A directory page: its ordinal in bytes 36 to 43, its count in 44 to 47, its
/// successor in 48 to 55, and then its entries, ten bytes each: the page in
/// eight and the slot in two.
pub proof fn lemma_directory_layout(p: Seq<u8>, i: int)
    ensures
        page::spec_dir_ordinal(p) == bytes::le64(p, 36),
        page::spec_dir_count(p) == bytes::le32(p, 44),
        page::spec_dir_next(p).0 == bytes::le64(p, 48),
        dir::target(p, i).0.0 == bytes::le64(p, 56 + 10 * i),
        dir::target(p, i).1 == bytes::le16(p, 64 + 10 * i),
{
}

/// Metrics are stored as 0, 1 and 2, and selections as 0 and 1.
pub proof fn lemma_codes()
    ensures
        Metric::L2.code() == 0,
        Metric::Cosine.code() == 1,
        Metric::InnerProduct.code() == 2,
        NeighborSelection::Heuristic.code() == 0,
        NeighborSelection::Simple.code() == 1,
        forall|m: Metric| #[trigger] Metric::decoded(m.code()) matches Ok(n) && n == m,
        forall|s: NeighborSelection| #[trigger]
            NeighborSelection::decoded(s.code()) matches Ok(t) && t == s,
{
}

/// A meta page: the entry point in bytes 32 to 35, its level in 36, the version
/// in 37, the codes of the metric and of the selection in 38 and 39, the
/// dimension in 40, `M` in 42, `M_max0` in 44, `ef_construction` in 46, the
/// default beam width in 50, zero in 54, the seed in 56, the directory in 64
/// and the snapshot version in 72.
pub proof fn lemma_meta_layout(p: Seq<u8>, q: MetaParams)
    requires
        p.len() == PAGE_SIZE,
    ensures
        meta::meta_of(p) matches Ok(r) ==> {
            &&& r.entry_point == bytes::le32(p, 32)
            &&& r.max_level == p[36]
            &&& r.metric.code() == p[38]
            &&& r.selection.code() == p[39]
            &&& r.dim == bytes::le16(p, 40)
            &&& r.m == bytes::le16(p, 42)
            &&& r.m_max0 == bytes::le16(p, 44)
            &&& r.ef_construction == bytes::le32(p, 46)
            &&& r.ef_search_default == bytes::le32(p, 50)
            &&& r.rng_seed == bytes::le64(p, 56)
            &&& r.dir_head.0 == bytes::le64(p, 64)
        },
        ({
            let w = meta::meta_written(p, q);
            &&& w.len() == PAGE_SIZE
            &&& bytes::le32(w, 32) == q.entry_point
            &&& w[36] == q.max_level
            &&& w[37] == 1
            &&& w[38] == q.metric.code()
            &&& w[39] == q.selection.code()
            &&& bytes::le16(w, 40) == q.dim
            &&& bytes::le16(w, 42) == q.m
            &&& bytes::le16(w, 44) == q.m_max0
            &&& bytes::le32(w, 46) == q.ef_construction
            &&& bytes::le32(w, 50) == q.ef_search_default
            &&& bytes::le16(w, 54) == 0
            &&& bytes::le64(w, 56) == q.rng_seed
            &&& bytes::le64(w, 64) == q.dir_head.0
            &&& bytes::le16(w, 72) == 1
            &&& forall|i: int| 0 <= i < 32 || 74 <= i < PAGE_SIZE ==> #[trigger] w[i] == p[i]
        }),
{
    meta::lemma_written_fields(p, q);
}

/// A page has room for an entry of `len` bytes if and only if its header is
/// that of a slotted page and the entry and a line pointer fit between its
/// line pointers and its entries. The entry's slot is then the first free one.
pub proof fn lemma_slot_selected(p: Seq<u8>, len: usize)
    ensures
        ({
            let lower = bytes::le16(p, 14) as int;
            let upper = bytes::le16(p, 16) as int;
            let special = bytes::le16(p, 18) as int;
            let slotted = 32 <= lower <= upper <= special <= 8192 && (lower - 32) % 4 == 0;
            let r = apply::selected(p, len);
            let n = apply::slots(p);
            &&& r is Ok <==> slotted && lower + 4 + len <= upper
            &&& r matches Ok(slot) ==> 32 + 4 * slot == lower
            &&& n is Ok <==> slotted
            &&& n matches Ok(k) ==> 32 + 4 * k == lower
        }),
{
}

/// The probe: without a stop and without logging it does nothing. Else it keeps
/// every mark, and the mark that it is to stop at is the one that brings their
/// number to that of the stop; all records are durable then.
pub proof fn lemma_probe(w: World, mark: ProbeMark)
    ensures
        ({
            let (w1, r) = model::marked(w, mark);
            let probe = w.index.probe;
            let on = probe.crash_after is Some || probe.logging;
            let n = probe.marks.len() + 1;
            &&& r is Err <==> probe.crash_after == Some(n as usize) && n <= usize::MAX
            &&& !on ==> w1 == w
            &&& on ==> w1.index.probe.marks == probe.marks.push(mark)
            &&& w1.disk.pages == w.disk.pages
            &&& w1.disk.log == w.disk.log
            &&& r is Err ==> w1.disk.durable == w.disk.log.len() as u64
        }),
{
}

/// A record is accepted if and only if the pages and the node that it names
/// are pages and a node, its level fits six bits, its vector has its dimension,
/// and its list is strictly ascending, without its owner and within 65535 ids.
pub proof fn lemma_record_accepted(p: PayloadView)
    ensures
        storage::payload_fault(p) is None <==> match p {
            PayloadView::FullPageImage { page_id, image } => {
                &&& page_id.0 != 0xffff_ffff_ffff_ffff
                &&& image.len() == 8192
            },
            PayloadView::NodeInit { meta_page_id, page_id, node_id, level, dim, vector, .. } => {
                &&& meta_page_id.0 != 0xffff_ffff_ffff_ffff
                &&& page_id.0 != 0xffff_ffff_ffff_ffff
                &&& node_id != 0xffff_ffff
                &&& level <= 63
                &&& vector.len() == dim
            },
            PayloadView::SetNeighbors { meta_page_id, page_id, node_id, level, neighbors, .. } => {
                &&& meta_page_id.0 != 0xffff_ffff_ffff_ffff
                &&& page_id.0 != 0xffff_ffff_ffff_ffff
                &&& node_id != 0xffff_ffff
                &&& level <= 63
                &&& neighbors.len() <= 65535
                &&& forall|i: int, j: int|
                    0 <= i < j < neighbors.len() ==> neighbors[i] < neighbors[j]
                &&& forall|i: int| 0 <= i < neighbors.len() ==> neighbors[i] != node_id
            },
            PayloadView::MetaUpdate { meta_page_id, entry_point, max_level } => {
                &&& meta_page_id.0 != 0xffff_ffff_ffff_ffff
                &&& max_level <= 63
                &&& entry_point == 0xffff_ffff ==> max_level == 0
            },
            PayloadView::NodeTombstone { meta_page_id, page_id, node_id, .. } => {
                &&& meta_page_id.0 != 0xffff_ffff_ffff_ffff
                &&& page_id.0 != 0xffff_ffff_ffff_ffff
                &&& node_id != 0xffff_ffff
            },
            PayloadView::DirAppend { dir_tail_page, node_id, target_page, .. } => {
                &&& dir_tail_page.0 != 0xffff_ffff_ffff_ffff
                &&& target_page.0 != 0xffff_ffff_ffff_ffff
                &&& node_id != 0xffff_ffff
            },
            PayloadView::DirLink { old_tail_page, next_page } => {
                &&& old_tail_page.0 != 0xffff_ffff_ffff_ffff
                &&& next_page.0 != 0xffff_ffff_ffff_ffff
                &&& next_page != old_tail_page
            },
            PayloadView::PublishLive { meta_page_id, page_id, node_id, .. } => {
                &&& meta_page_id.0 != 0xffff_ffff_ffff_ffff
                &&& page_id.0 != 0xffff_ffff_ffff_ffff
                &&& node_id != 0xffff_ffff
            },
        },
{
    if let PayloadView::SetNeighbors { node_id, neighbors, .. } = p {
        assert(neighbors.contains(node_id) <==> exists|i: int|
            0 <= i < neighbors.len() && neighbors[i] == node_id);
    }
}

} // verus!
