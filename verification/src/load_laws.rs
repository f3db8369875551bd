//! Which snapshots are saved and which are loaded, and the bytes that they
//! are made of.

use vstd::prelude::*;

use crate::bytes;
use crate::check_laws;
use crate::crc;
use crate::encoding;
use crate::encoding::RecordData;
use crate::encoding::SnapshotHeader;
use crate::encoding_laws;
use crate::error::HnswError;
use crate::graph;
use crate::graph::Metric;
use crate::params;
use crate::params::NodeId;
use crate::snapshot;
use crate::snapshot::GraphView;
use crate::snapshot::LoadBudget;

verus! {

// ---------------------------------------------------------------------
// Graphs.
// ---------------------------------------------------------------------

/// A header that a snapshot can have: vectors have a component, `M` is at
/// least 2, and `M_max0` and `ef_construction` are at least `M`.
pub open spec fn possible_header(h: SnapshotHeader) -> bool {
    &&& h.dim > 0
    &&& 2 <= h.m <= h.m_max0
    &&& h.m <= h.ef_construction
}

/// A header is accepted if and only if a snapshot can have it.
pub proof fn lemma_header_accepted(h: SnapshotHeader)
    ensures
        encoding::header_fault(h) is None <==> possible_header(h),
{
}

/// A list of node `i` on a level that a snapshot can have: within `M_max0` ids
/// on level 0 and `M` above, strictly ascending, without the node itself, and
/// of nodes that there are and that have the level.
pub open spec fn possible_list(
    h: SnapshotHeader,
    nodes: Seq<RecordData>,
    i: int,
    level: int,
    list: Seq<u32>,
) -> bool {
    &&& list.len() <= if level == 0 {
        h.m_max0
    } else {
        h.m
    }
    &&& forall|a: int, b: int| 0 <= a < b < list.len() ==> list[a] < list[b]
    &&& forall|a: int|
        0 <= a < list.len() ==> {
            &&& (#[trigger] list[a]) != i
            &&& list[a] < nodes.len()
            &&& level < nodes[list[a] as int].neighbors.len()
        }
}

/// A graph that a snapshot can have: as many nodes as its header says, each
/// with a vector of finite components, 1 to 64 levels and lists that it can
/// have; entered at a node that no other stands above, on its level; or, where
/// there are no nodes, nowhere.
pub open spec fn possible_graph(h: SnapshotHeader, nodes: Seq<RecordData>) -> bool {
    &&& possible_header(h)
    &&& nodes.len() == h.node_count
    &&& forall|i: int|
        0 <= i < nodes.len() ==> {
            &&& (#[trigger] nodes[i]).vector.len() == h.dim
            &&& check_laws::usable_vector(nodes[i].vector)
            &&& 1 <= nodes[i].neighbors.len() <= 64
            &&& nodes[i].neighbors.len() <= h.max_level + 1
        }
    &&& if nodes.len() == 0 {
        h.entry_point == 0xffff_ffff && h.max_level == 0
    } else {
        &&& h.entry_point < nodes.len()
        &&& nodes[h.entry_point as int].neighbors.len() == h.max_level + 1
    }
    &&& forall|i: int, l: int|
        0 <= i < nodes.len() && 0 <= l < nodes[i].neighbors.len() ==> possible_list(
            h,
            nodes,
            i,
            l,
            #[trigger] nodes[i].neighbors[l],
        )
}

/// A snapshot's body is encoded if and only if a snapshot can have its graph.
pub proof fn lemma_graph_accepted(h: SnapshotHeader, nodes: Seq<RecordData>)
    ensures
        encoding::encoded(h, nodes) is Ok <==> possible_graph(h, nodes),
{
    encoding_laws::lemma_legal_graphs_encode(h, nodes);
    lemma_legal_is_possible(h, nodes);
}

/// What the laws of the format call legal is what a snapshot can have.
proof fn lemma_legal_is_possible(h: SnapshotHeader, nodes: Seq<RecordData>)
    ensures
        encoding_laws::legal_graph(h, nodes) <==> possible_graph(h, nodes),
{
    assert forall|i: int| 0 <= i < nodes.len() implies (graph::all_finite(
        (#[trigger] nodes[i]).vector,
    ) && nodes[i].vector.len() > 0 <==> check_laws::usable_vector(nodes[i].vector)) by {
        let v = nodes[i].vector;
        assert forall|c: int| 0 <= c < v.len() implies (graph::finite_bits(#[trigger] v[c])
            <==> check_laws::magnitude(v[c]) < 0x7f80_0000) by {
            check_laws::lemma_bits(v[c]);
        }
    }
    if encoding_laws::legal_graph(h, nodes) {
        assert forall|i: int| 0 <= i < nodes.len() implies {
            &&& (#[trigger] nodes[i]).vector.len() == h.dim
            &&& check_laws::usable_vector(nodes[i].vector)
            &&& 1 <= nodes[i].neighbors.len() <= 64
            &&& nodes[i].neighbors.len() <= h.max_level + 1
        } by {
            assert(encoding_laws::legal_node(h, nodes[i]));
        }
        assert forall|i: int, l: int|
            0 <= i < nodes.len() && 0 <= l < nodes[i].neighbors.len() implies possible_list(
            h,
            nodes,
            i,
            l,
            #[trigger] nodes[i].neighbors[l],
        ) by {
            let list = nodes[i].neighbors[l];
            assert(encoding_laws::legal_list(h, nodes, i, l, list));
            assert forall|a: int| 0 <= a < list.len() implies {
                &&& (#[trigger] list[a]) != i
                &&& list[a] < nodes.len()
                &&& level_of(nodes, list[a] as int, l)
            } by {
                assert(encoding_laws::legal_edge(h, nodes, i, l, list, a));
            }
            assert forall|a: int, b: int| 0 <= a < b < list.len() implies list[a] < list[b] by {
                lemma_ascends(h, nodes, i, l, list, a, b);
            }
        }
    }
    if possible_graph(h, nodes) {
        assert forall|i: int| 0 <= i < nodes.len() implies encoding_laws::legal_node(
            h,
            #[trigger] nodes[i],
        ) by {}
        assert forall|i: int, l: int|
            0 <= i < nodes.len() && 0 <= l < nodes[i].neighbors.len() implies
            encoding_laws::legal_list(h, nodes, i, l, #[trigger] nodes[i].neighbors[l]) by {
            let list = nodes[i].neighbors[l];
            assert(possible_list(h, nodes, i, l, list));
            assert forall|j: int| 0 <= j < list.len() implies encoding_laws::legal_edge(
                h,
                nodes,
                i,
                l,
                list,
                j,
            ) by {
                assert(list[j] != i);
                if j > 0 {
                    assert(list[j - 1] < list[j]);
                }
            }
        }
    }
}

/// Node `i` has the level.
spec fn level_of(nodes: Seq<RecordData>, i: int, level: int) -> bool {
    level < nodes[i].neighbors.len()
}

/// A list whose neighbors ascend ascends.
proof fn lemma_ascends(
    h: SnapshotHeader,
    nodes: Seq<RecordData>,
    i: int,
    l: int,
    list: Seq<u32>,
    a: int,
    b: int,
)
    requires
        encoding_laws::legal_list(h, nodes, i, l, list),
        0 <= a < b < list.len(),
    ensures
        list[a] < list[b],
    decreases b - a,
{
    assert(encoding_laws::legal_edge(h, nodes, i, l, list, b));
    if a + 1 < b {
        lemma_ascends(h, nodes, i, l, list, a, b - 1);
    }
}

// ---------------------------------------------------------------------
// Bytes.
// ---------------------------------------------------------------------

/// Fields are little-endian.
pub proof fn lemma_fields_are_little_endian(s: Seq<u8>, at: int)
    ensures
        bytes::le16(s, at) == s[at] + 0x100 * s[at + 1],
        bytes::le32(s, at) == s[at] + 0x100 * (s[at + 1] + 0x100 * (s[at + 2] + 0x100 * s[at + 3])),
        bytes::le64(s, at) == bytes::le32(s, at) + 0x1_0000_0000 * bytes::le32(s, at + 4),
{
}

/// The header of a snapshot: the letters HNSW, the version, the dimension,
/// `M`, `M_max0`, `ef_construction`, the number of nodes, the entry point and
/// its level.
pub proof fn lemma_header_layout(h: SnapshotHeader)
    ensures
        ({
            let b = encoding::header_bytes(h);
            &&& b.len() == 25
            &&& b[0] == 0x48 && b[1] == 0x4e && b[2] == 0x53 && b[3] == 0x57
            &&& bytes::le16(b, 4) == 1
            &&& bytes::le16(b, 6) == h.dim
            &&& bytes::le16(b, 8) == h.m
            &&& bytes::le16(b, 10) == h.m_max0
            &&& bytes::le32(b, 12) == h.ef_construction
            &&& bytes::le32(b, 16) == h.node_count
            &&& bytes::le32(b, 20) == h.entry_point
            &&& b[24] == h.max_level
        }),
{
    let b = encoding::header_bytes(h);
    encoding_laws::lemma_header_fields(h);
    assert(encoding::header_fields(b) == h);
    lemma_letters(b);
}

/// The letters HNSW, as a little-endian word.
proof fn lemma_letters(b: Seq<u8>)
    ensures
        bytes::le32(b, 0) == 0x5753_4e48 <==> b[0] == 0x48 && b[1] == 0x4e && b[2] == 0x53 && b[3]
            == 0x57,
{
}

/// A header is read if and only if there are bytes enough, it begins with the
/// letters HNSW and the version 1, and a snapshot can have it.
pub proof fn lemma_header_read(b: Seq<u8>)
    ensures
        encoding::header_of(b) is Ok <==> {
            &&& b.len() >= 25
            &&& b[0] == 0x48 && b[1] == 0x4e && b[2] == 0x53 && b[3] == 0x57
            &&& bytes::le16(b, 4) == 1
            &&& possible_header(
                (SnapshotHeader {
                    dim: bytes::le16(b, 6),
                    m: bytes::le16(b, 8),
                    m_max0: bytes::le16(b, 10),
                    ef_construction: bytes::le32(b, 12),
                    node_count: bytes::le32(b, 16),
                    entry_point: bytes::le32(b, 20),
                    max_level: b[24],
                }),
            )
        },
{
    lemma_letters(b);
}

/// Where the list of a level begins among lists one after the other.
pub open spec fn list_at(lists: Seq<Seq<u32>>, level: int) -> int
    decreases level,
{
    if level <= 0 {
        0
    } else {
        list_at(lists, level - 1) + 2 + 4 * lists[level - 1].len()
    }
}

/// A list stands at `p`: its length in two bytes, and then its ids, four bytes
/// each.
#[verifier::opaque]
pub open spec fn list_stands(b: Seq<u8>, p: int, list: Seq<u32>) -> bool {
    &&& 0 <= p
    &&& p + 2 + 4 * list.len() <= b.len()
    &&& bytes::le16(b, p) == list.len()
    &&& bytes::words_at(b, p + 2, list.len()) == list
}

/// A list stands at the beginning of its bytes.
proof fn lemma_list_stands(list: Seq<u32>)
    requires
        list.len() <= 0xffff,
    ensures
        list_stands(encoding::list_bytes(list), 0, list),
        encoding::list_bytes(list).len() == 2 + 4 * list.len(),
{
    reveal(list_stands);
    let b = encoding::list_bytes(list);
    let x = bytes::u16_le(list.len() as u16);
    bytes::lemma_words_le(list);
    bytes::lemma_u16_le(list.len() as u16);
    assert(b[0] == x[0] && b[1] == x[1]);
    assert(b.subrange(2, 2 + 4 * list.len() as int) =~= bytes::words_le(list));
    bytes::lemma_words_inside(b, 2, list);
}

/// A list stands where it stood, whatever comes before and behind.
proof fn lemma_list_stands_inside(x: Seq<u8>, a: Seq<u8>, y: Seq<u8>, p: int, list: Seq<u32>)
    requires
        list_stands(a, p, list),
    ensures
        list_stands(x + a + y, x.len() + p, list),
{
    reveal(list_stands);
    let b = x + a + y;
    let o = x.len() as int;
    assert(b[o + p] == a[p] && b[o + p + 1] == a[p + 1]);
    assert forall|i: int| 0 <= i < list.len() implies bytes::words_at(
        b,
        o + p + 2,
        list.len(),
    )[i] == list[i] by {
        let j = p + 2 + 4 * i;
        assert(bytes::words_at(a, p + 2, list.len())[i] == list[i]);
        assert(b[o + j] == a[j] && b[o + j + 1] == a[j + 1]);
        assert(b[o + j + 2] == a[j + 2] && b[o + j + 3] == a[j + 3]);
    }
    assert(bytes::words_at(b, o + p + 2, list.len()) =~= list);
}

/// The bytes of a record: two zeros, the vector, the number of levels, and
/// then for each level from 0 up the number of neighbors and the neighbors.
pub proof fn lemma_record_layout(r: RecordData, dim: u16)
    requires
        encoding::record_fault(dim, r) is None,
    ensures
        ({
            let b = encoding::record_bytes(r);
            let at = 3 + 4 * dim as int;
            let n = r.neighbors.len() as int;
            &&& b.len() == at + list_at(r.neighbors, n)
            &&& b[0] == 0 && b[1] == 0
            &&& bytes::words_at(b, 2, dim as nat) == r.vector
            &&& b[2 + 4 * dim] == n
            &&& forall|l: int|
                0 <= l < n ==> list_stands(
                    b,
                    at + list_at(r.neighbors, l),
                    #[trigger] r.neighbors[l],
                )
        }),
{
    let b = encoding::record_bytes(r);
    let at = 3 + 4 * dim as int;
    let lb = encoding::lists_bytes(r.neighbors);
    let head = encoding::record_head(r);
    let none = Seq::<u8>::empty();
    encoding::lemma_no_wide_level(r.neighbors, r.neighbors.len());
    bytes::lemma_words_le(r.vector);
    lemma_lists_layout(r.neighbors);
    assert(b =~= head + lb + none);
    assert(b.subrange(2, 2 + 4 * dim) =~= bytes::words_le(r.vector));
    bytes::lemma_words_inside(b, 2, r.vector);
    assert forall|l: int| 0 <= l < r.neighbors.len() implies list_stands(
        b,
        at + list_at(r.neighbors, l),
        #[trigger] r.neighbors[l],
    ) by {
        lemma_list_stands_inside(head, lb, none, list_at(r.neighbors, l), r.neighbors[l]);
    }
}

/// The bytes of lists one after the other.
proof fn lemma_lists_layout(lists: Seq<Seq<u32>>)
    requires
        forall|l: int| 0 <= l < lists.len() ==> (#[trigger] lists[l]).len() <= 0xffff,
    ensures
        encoding::lists_bytes(lists).len() == list_at(lists, lists.len() as int),
        forall|l: int|
            0 <= l < lists.len() ==> list_stands(
                encoding::lists_bytes(lists),
                list_at(lists, l),
                #[trigger] lists[l],
            ),
    decreases lists.len(),
{
    if lists.len() > 0 {
        let n = lists.len() - 1;
        let front = lists.drop_last();
        let last = lists.last();
        let none = Seq::<u8>::empty();
        lemma_lists_layout(front);
        assert(lists[n].len() <= 0xffff);
        lemma_list_stands(last);
        lemma_list_at_front(lists, n);
        let a = encoding::lists_bytes(front);
        let b = encoding::lists_bytes(lists);
        let c = encoding::list_bytes(last);
        assert forall|l: int| 0 <= l < lists.len() implies list_stands(
            b,
            list_at(lists, l),
            #[trigger] lists[l],
        ) by {
            if l < n {
                lemma_list_at_front(lists, l);
                assert(front[l] == lists[l]);
                lemma_list_stands_inside(none, a, c, list_at(front, l), front[l]);
                assert(none + a + c =~= b);
            } else {
                lemma_list_stands_inside(a, c, none, 0, last);
                assert(a + c + none =~= b);
            }
        }
    }
}

/// Where a list begins does not depend on the lists behind it.
proof fn lemma_list_at_front(lists: Seq<Seq<u32>>, l: int)
    requires
        0 <= l < lists.len(),
    ensures
        list_at(lists, l) == list_at(lists.drop_last(), l),
        list_at(lists, l) >= 0,
    decreases l,
{
    if l > 0 {
        lemma_list_at_front(lists, l - 1);
    }
}

/// A snapshot file: the checksum of the body, then the header and the records
/// in the order of their ids.
pub proof fn lemma_file_layout(h: SnapshotHeader, nodes: Seq<RecordData>)
    ensures
        ({
            let body = encoding::body_bytes(h, nodes);
            let b = encoding::wrapped(body);
            &&& b.len() == body.len() + 4
            &&& bytes::le32(b, 0) == crc::crc32_of(body)
            &&& b.skip(4) == body
            &&& body.take(25) == encoding::header_bytes(h)
            &&& nodes.len() == 0 ==> body.len() == 25
            &&& nodes.len() > 0 ==> body == encoding::body_bytes(h, nodes.drop_last())
                + encoding::record_bytes(nodes.last())
        }),
{
    let body = encoding::body_bytes(h, nodes);
    let b = encoding::wrapped(body);
    let c = bytes::u32_le(crc::crc32_of(body));
    bytes::lemma_u32_le(crc::crc32_of(body));
    encoding_laws::lemma_header_len(h);
    assert(b[0] == c[0] && b[1] == c[1] && b[2] == c[2] && b[3] == c[3]);
    assert(b.skip(4) =~= body);
    assert(body.take(25) =~= encoding::header_bytes(h));
    if nodes.len() > 0 {
        assert(body =~= encoding::body_bytes(h, nodes.drop_last()) + encoding::record_bytes(
            nodes.last(),
        ));
    }
}

// ---------------------------------------------------------------------
// Loading.
// ---------------------------------------------------------------------

/// Bytes that a node takes in memory at most while a snapshot with this header
/// is loaded. All but its level and three lists' headers it takes twice: four
/// bytes for each component, 24 for each of 64 levels, and four for each
/// neighbor that its levels have room for.
pub open spec fn memory_of_a_node(h: SnapshotHeader) -> int {
    1 + 96 + 2 * (4 * h.dim + 24 * 64 + 4 * (h.m_max0 + 63 * h.m))
}

/// What decides from a file's length and its first bytes whether it is worth
/// reading: a header that can be read, a length within the budget and memory
/// within the other, a default beam width of at least `M`, and a length that a
/// file with as many records can have, from those of one empty list each to
/// those of 64 full ones.
pub proof fn lemma_load_planned(
    budget: LoadBudget,
    file_len: u64,
    prefix: Seq<u8>,
    ef_search_default: u32,
)
    requires
        file_len >= 29,
    ensures
        ({
            let r = snapshot::planned(budget, file_len, prefix, ef_search_default);
            let head = encoding::header_of(prefix.skip(4));
            let h = head->Ok_0;
            let n = h.node_count as int;
            let records = file_len - 29;
            &&& r is Ok <==> {
                &&& prefix.len() >= 29
                &&& head is Ok
                &&& file_len <= budget.max_file_bytes
                &&& n * memory_of_a_node(h) <= budget.max_memory_bytes
                &&& h.m <= ef_search_default
                &&& n * (2 + 4 * h.dim + 1 + 2) <= records
                &&& records <= n * (2 + 4 * h.dim + 1 + (2 + 4 * h.m_max0) + 63 * (2 + 4 * h.m))
            }
            &&& r is Ok ==> r->Ok_0 == h
        }),
{
    assert(prefix.len() >= 29 ==> prefix.skip(4) =~= prefix.subrange(4, prefix.len() as int));
    if prefix.len() >= 29 {
        if let Ok(h) = encoding::header_of(prefix.skip(4)) {
            lemma_header_read(prefix.skip(4));
            let n = h.node_count as int;
            let min = encoding::min_record_size(h.dim);
            let records = file_len - 29;
            check_laws::lemma_params_accepted(h.m, h.m_max0, h.ef_construction, ef_search_default);
            assert(n <= records / min <==> n * min <= records) by (nonlinear_arith)
                requires
                    min > 0,
                    records >= 0,
            ;
            assert(encoding::node_footprint(h) == memory_of_a_node(h));
        }
    }
}

/// The bytes that the size functions promise.
pub proof fn lemma_sizes_of_a_header(h: SnapshotHeader)
    ensures
        encoding::spec_max_body_size(h) == 25 + h.node_count * (2 + 4 * h.dim + 1 + (2 + 4
            * h.m_max0) + 63 * (2 + 4 * h.m)),
        encoding::node_footprint(h) == memory_of_a_node(h),
        encoding::min_record_size(h.dim) == 2 + 4 * h.dim + 1 + 2,
{
}

/// A vector of a graph is zero.
pub open spec fn holds_zero(nodes: Seq<RecordData>) -> bool {
    exists|i: int|
        0 <= i < nodes.len() && !check_laws::nonzero_vector((#[trigger] nodes[i]).vector)
}

/// The snapshot of a graph that a snapshot can have is loaded if and only if it
/// comes from a regular file, the budgets allow its length and its memory, the
/// default beam width is at least `M`, and, under the cosine, no vector is
/// zero. What comes back is the graph, read-only, under the metric and with
/// the beam width that were asked for.
pub proof fn lemma_snapshot_loads(
    h: SnapshotHeader,
    nodes: Seq<RecordData>,
    is_file: bool,
    metric: Metric,
    ef_search_default: u32,
    budget: LoadBudget,
)
    requires
        possible_graph(h, nodes),
        encoding::wrapped(encoding::body_bytes(h, nodes)).len() <= u64::MAX,
    ensures
        ({
            let b = encoding::wrapped(encoding::body_bytes(h, nodes));
            let r = snapshot::loaded(
                is_file,
                b.len() as u64,
                b,
                metric,
                ef_search_default,
                budget,
            );
            &&& r is Ok <==> {
                &&& is_file
                &&& b.len() <= budget.max_file_bytes
                &&& h.node_count * memory_of_a_node(h) <= budget.max_memory_bytes
                &&& h.m <= ef_search_default
                &&& metric == Metric::Cosine ==> !holds_zero(nodes)
            }
            &&& r matches Ok(g) ==> {
                &&& g.nodes == nodes
                &&& g.dim == h.dim
                &&& g.metric == metric
                &&& g.params.m == h.m
                &&& g.params.m_max0 == h.m_max0
                &&& g.params.ef_construction == h.ef_construction
                &&& g.params.ef_search_default == ef_search_default
                &&& g.entry_point == if nodes.len() == 0 {
                    None
                } else {
                    Some(NodeId(h.entry_point))
                }
                &&& g.max_level == h.max_level
                &&& g.read_only
            }
        }),
{
    let body = encoding::body_bytes(h, nodes);
    let b = encoding::wrapped(body);
    let hb = encoding::header_bytes(h);
    lemma_legal_is_possible(h, nodes);
    encoding_laws::lemma_body_round_trip(h, nodes);
    encoding_laws::lemma_checksum_round_trip(body);
    encoding_laws::lemma_body_size(h, nodes);
    encoding_laws::lemma_header_len(h);
    lemma_file_layout(h, nodes);
    let prefix = b.take(29);
    assert(prefix.skip(4) =~= hb);
    encoding_laws::lemma_header_round_trip(h, Seq::empty());
    assert(hb + Seq::<u8>::empty() =~= hb);
    lemma_load_planned(budget, b.len() as u64, prefix, ef_search_default);
    let max = h.node_count * encoding::max_record_size(h);
    assert(0 <= max <= 0x0200_0000_0000_0000) by {
        let n = h.node_count as int;
        let per = encoding::max_record_size(h);
        assert(0 <= n * per <= 0xffff_ffff * 0x11f_ffff) by (nonlinear_arith)
            requires
                0 <= n <= 0xffff_ffff,
                0 <= per <= 0x11f_ffff,
        ;
    }
    snapshot::lemma_zero_is_unserved(h, nodes, metric);
    lemma_zero(nodes);
    if b.len() <= budget.max_file_bytes {
        assert(b.len() <= 29 + snapshot::rest_cap(budget, h));
    }
}

/// A vector is zero if and only if all its components are.
proof fn lemma_zero(nodes: Seq<RecordData>)
    ensures
        holds_zero(nodes) <==> exists|i: int|
            0 <= i < nodes.len() && graph::all_zero((#[trigger] nodes[i]).vector),
{
    assert forall|i: int| 0 <= i < nodes.len() implies (graph::all_zero(
        (#[trigger] nodes[i]).vector,
    ) <==> !check_laws::nonzero_vector(nodes[i].vector)) by {
        let v = nodes[i].vector;
        assert forall|c: int| 0 <= c < v.len() implies (graph::zero_bits(#[trigger] v[c])
            <==> check_laws::magnitude(v[c]) == 0) by {
            check_laws::lemma_bits(v[c]);
        }
    }
}

/// Whatever is loaded from a file of its declared length is the snapshot of a
/// graph that a snapshot can have, byte for byte.
pub proof fn lemma_loaded_is_a_snapshot(
    is_file: bool,
    b: Seq<u8>,
    metric: Metric,
    ef_search_default: u32,
    budget: LoadBudget,
)
    requires
        b.len() <= u64::MAX,
    ensures
        snapshot::loaded(
            is_file,
            b.len() as u64,
            b,
            metric,
            ef_search_default,
            budget,
        ) matches Ok(g) ==> {
            let h = SnapshotHeader {
                dim: g.dim,
                m: g.params.m,
                m_max0: g.params.m_max0,
                ef_construction: g.params.ef_construction,
                node_count: g.nodes.len() as u32,
                entry_point: match g.entry_point {
                    Some(id) => id.0,
                    None => 0xffff_ffff,
                },
                max_level: g.max_level,
            };
            &&& possible_graph(h, g.nodes)
            &&& b == encoding::wrapped(encoding::body_bytes(h, g.nodes))
        },
{
    let r = snapshot::loaded(is_file, b.len() as u64, b, metric, ef_search_default, budget);
    if let Ok(g) = r {
        assert(b.len() >= 29);
        let prefix = b.take(29);
        let h = snapshot::planned(budget, b.len() as u64, prefix, ef_search_default)->Ok_0;
        let max = h.node_count * encoding::max_record_size(h);
        assert(0 <= max <= 0x0200_0000_0000_0000) by {
            let n = h.node_count as int;
            let per = encoding::max_record_size(h);
            assert(0 <= n * per <= 0xffff_ffff * 0x11f_ffff) by (nonlinear_arith)
                requires
                    0 <= n <= 0xffff_ffff,
                    0 <= per <= 0x11f_ffff,
            ;
        }
        assert(b.len() <= 29 + snapshot::rest_cap(budget, h));
        let body = encoding::unwrapped(b)->Ok_0;
        let (h2, nodes) = encoding::body_of(body)->Ok_0;
        encoding_laws::lemma_checksum_is_canonical(b);
        encoding_laws::lemma_body_is_canonical(body);
        encoding_laws::lemma_body_round_trip(h2, nodes);
        lemma_legal_is_possible(h2, nodes);
        assert(body =~= b.skip(4));
        encoding_laws::lemma_header_is_canonical(body);
        assert(prefix.subrange(4, 29) =~= body.take(25));
        assert(encoding::header_of(prefix.subrange(4, 29)) == Ok::<SnapshotHeader, HnswError>(h2))
            by {
            encoding_laws::lemma_header_round_trip(h2, Seq::empty());
            let hb = encoding::header_bytes(h2);
            assert(body.take(25) =~= body.subrange(0, 25));
            assert(hb + Seq::<u8>::empty() =~= hb);
        }
        assert(h == h2);
    }
}

/// A file that has grown since its length was taken is found out: where there
/// are more bytes than the snapshot that is read, that snapshot is one byte
/// over the budget. No more than that is ever read.
pub proof fn lemma_grown_file_is_found(
    is_file: bool,
    file_len: u64,
    b: Seq<u8>,
    metric: Metric,
    ef_search_default: u32,
    budget: LoadBudget,
)
    ensures
        snapshot::loaded(
            is_file,
            file_len,
            b,
            metric,
            ef_search_default,
            budget,
        ) matches Ok(g) ==> {
            let h = SnapshotHeader {
                dim: g.dim,
                m: g.params.m,
                m_max0: g.params.m_max0,
                ef_construction: g.params.ef_construction,
                node_count: g.nodes.len() as u32,
                entry_point: match g.entry_point {
                    Some(id) => id.0,
                    None => 0xffff_ffff,
                },
                max_level: g.max_level,
            };
            let s = encoding::wrapped(encoding::body_bytes(h, g.nodes));
            &&& possible_graph(h, g.nodes)
            &&& s.len() <= b.len()
            &&& b.take(s.len() as int) == s
            &&& b == s || s.len() == budget.max_file_bytes + 1
            &&& s.len() <= budget.max_file_bytes + 1
        },
{
    let r = snapshot::loaded(is_file, file_len, b, metric, ef_search_default, budget);
    if let Ok(g) = r {
        assert(b.len() >= 29);
        let prefix = b.take(29);
        let h = snapshot::planned(budget, file_len, prefix, ef_search_default)->Ok_0;
        let max = h.node_count * encoding::max_record_size(h);
        assert(0 <= max <= 0x0200_0000_0000_0000) by {
            let n = h.node_count as int;
            let per = encoding::max_record_size(h);
            assert(0 <= n * per <= 0xffff_ffff * 0x11f_ffff) by (nonlinear_arith)
                requires
                    0 <= n <= 0xffff_ffff,
                    0 <= per <= 0x11f_ffff,
            ;
        }
        let cap = 29 + snapshot::rest_cap(budget, h);
        let read = if b.len() <= cap {
            b
        } else {
            b.take(cap)
        };
        let body = encoding::unwrapped(read)->Ok_0;
        let (h2, nodes) = encoding::body_of(body)->Ok_0;
        encoding_laws::lemma_checksum_is_canonical(read);
        encoding_laws::lemma_body_is_canonical(body);
        encoding_laws::lemma_body_round_trip(h2, nodes);
        encoding_laws::lemma_body_size(h2, nodes);
        lemma_legal_is_possible(h2, nodes);
        assert(body =~= read.skip(4));
        encoding_laws::lemma_header_is_canonical(body);
        assert(prefix.subrange(4, 29) =~= body.take(25));
        assert(encoding::header_of(prefix.subrange(4, 29)) == Ok::<SnapshotHeader, HnswError>(h2))
            by {
            encoding_laws::lemma_header_round_trip(h2, Seq::empty());
            let hb = encoding::header_bytes(h2);
            assert(body.take(25) =~= body.subrange(0, 25));
            assert(hb + Seq::<u8>::empty() =~= hb);
        }
        assert(h == h2);
        lemma_file_layout(h2, nodes);
        assert(b.take(b.len() as int) =~= b);
    }
}

/// Saving refuses exactly the graphs that a snapshot cannot have, and writes
/// every other as the snapshot of its nodes and parameters.
pub proof fn lemma_saved(g: GraphView)
    requires
        snapshot::graph_ok(g),
    ensures
        ({
            let h = SnapshotHeader {
                dim: g.dim,
                m: g.params.m,
                m_max0: g.params.m_max0,
                ef_construction: g.params.ef_construction,
                node_count: g.nodes.len() as u32,
                entry_point: match g.entry_point {
                    Some(id) => id.0,
                    None => 0xffff_ffff,
                },
                max_level: g.max_level,
            };
            let r = snapshot::saved(g);
            &&& r is Ok <==> possible_graph(h, g.nodes)
            &&& r is Ok ==> r->Ok_0 == encoding::wrapped(encoding::body_bytes(h, g.nodes))
        }),
{
    let h = snapshot::header_for(g);
    lemma_graph_accepted(h, g.nodes);
    if encoding::encoded(h, g.nodes) is Ok {
        lemma_legal_is_possible(h, g.nodes);
        encoding_laws::lemma_body_round_trip(h, g.nodes);
    }
}

} // verus!
