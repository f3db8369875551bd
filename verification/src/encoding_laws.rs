//! What the snapshot byte stream promises.
//!
//! Reading gives back what was written, and the write path accepts exactly
//! the graphs that the read path accepts.

use vstd::prelude::*;

use crate::bytes;
use crate::crc;
use crate::encoding;
use crate::encoding::RecordData;
use crate::encoding::SnapshotHeader;
use crate::error::HnswError;
use crate::fault::RecordFault;
use crate::graph;

verus! {

/// The fields of an encoded header.
pub proof fn lemma_header_fields(h: SnapshotHeader)
    ensures
        encoding::header_bytes(h).len() == 25,
        bytes::le32(encoding::header_bytes(h), 0) == encoding::SNAPSHOT_MAGIC,
        bytes::le16(encoding::header_bytes(h), 4) == encoding::FORMAT_VERSION,
        encoding::header_fields(encoding::header_bytes(h)) == h,
{
    let b = encoding::header_bytes(h);
    bytes::lemma_u32_le(encoding::SNAPSHOT_MAGIC);
    bytes::lemma_u16_le(encoding::FORMAT_VERSION);
    bytes::lemma_u16_le(h.dim);
    bytes::lemma_u16_le(h.m);
    bytes::lemma_u16_le(h.m_max0);
    bytes::lemma_u32_le(h.ef_construction);
    bytes::lemma_u32_le(h.node_count);
    bytes::lemma_u32_le(h.entry_point);
    let w = bytes::u32_le(encoding::SNAPSHOT_MAGIC);
    assert(b[0] == w[0] && b[1] == w[1] && b[2] == w[2] && b[3] == w[3]);
    let w = bytes::u16_le(encoding::FORMAT_VERSION);
    assert(b[4] == w[0] && b[5] == w[1]);
    let w = bytes::u16_le(h.dim);
    assert(b[6] == w[0] && b[7] == w[1]);
    let w = bytes::u16_le(h.m);
    assert(b[8] == w[0] && b[9] == w[1]);
    let w = bytes::u16_le(h.m_max0);
    assert(b[10] == w[0] && b[11] == w[1]);
    let w = bytes::u32_le(h.ef_construction);
    assert(b[12] == w[0] && b[13] == w[1] && b[14] == w[2] && b[15] == w[3]);
    let w = bytes::u32_le(h.node_count);
    assert(b[16] == w[0] && b[17] == w[1] && b[18] == w[2] && b[19] == w[3]);
    let w = bytes::u32_le(h.entry_point);
    assert(b[20] == w[0] && b[21] == w[1] && b[22] == w[2] && b[23] == w[3]);
    assert(b[24] == h.max_level);
}

/// An encoded header has a fixed length.
pub proof fn lemma_header_len(h: SnapshotHeader)
    ensures
        encoding::header_bytes(h).len() == 25,
{
    lemma_header_fields(h);
}

/// Bytes that agree on the header's length hold the same header.
proof fn lemma_header_frame(a: Seq<u8>, b: Seq<u8>)
    requires
        a.len() >= 25,
        b.len() >= 25,
        forall|i: int| 0 <= i < 25 ==> a[i] == b[i],
    ensures
        encoding::header_of(a) == encoding::header_of(b),
{
    assert(encoding::header_fields(a) == encoding::header_fields(b));
}

/// A valid header reads back from its bytes, whatever follows them.
pub proof fn lemma_header_round_trip(h: SnapshotHeader, tail: Seq<u8>)
    requires
        encoding::header_fault(h) is None,
    ensures
        encoding::header_of(encoding::header_bytes(h) + tail) == Ok::<SnapshotHeader, HnswError>(h),
{
    lemma_header_fields(h);
    lemma_header_frame(encoding::header_bytes(h), encoding::header_bytes(h) + tail);
}

/// A header that reads is valid and was written as the bytes it is read from.
pub proof fn lemma_header_is_canonical(b: Seq<u8>)
    ensures
        encoding::header_of(b) matches Ok(h) ==> encoding::header_fault(h) is None && b.subrange(
            0,
            25,
        ) == encoding::header_bytes(h),
{
    if let Ok(h) = encoding::header_of(b) {
        bytes::lemma_le32_bytes(b, 0);
        bytes::lemma_le16_bytes(b, 4);
        bytes::lemma_le16_bytes(b, 6);
        bytes::lemma_le16_bytes(b, 8);
        bytes::lemma_le16_bytes(b, 10);
        bytes::lemma_le32_bytes(b, 12);
        bytes::lemma_le32_bytes(b, 16);
        bytes::lemma_le32_bytes(b, 20);
        let e = encoding::header_bytes(h);
        lemma_header_fields(h);
        let s = b.subrange(0, 25);
        assert(e =~= b.subrange(0, 4) + b.subrange(4, 6) + b.subrange(6, 8) + b.subrange(8, 10)
            + b.subrange(10, 12) + b.subrange(12, 16) + b.subrange(16, 20) + b.subrange(20, 24)
            + seq![b[24]]);
        assert(e =~= s);
    }
}

/// A neighbor list reads back from its bytes.
proof fn lemma_list_inside(list: Seq<u32>, b: Seq<u8>, at: int)
    requires
        0 <= at,
        at + encoding::list_bytes(list).len() <= b.len(),
        b.subrange(at, at + encoding::list_bytes(list).len()) == encoding::list_bytes(list),
        list.len() <= 0xffff,
    ensures
        encoding::list_bytes(list).len() == 2 + 4 * list.len(),
        bytes::le16(b, at) == list.len(),
        bytes::words_at(b, at + 2, list.len()) == list,
{
    let count = bytes::u16_le(list.len() as u16);
    let w = bytes::words_le(list);
    bytes::lemma_subrange_parts(b, at, count, w);
    bytes::lemma_u16_le(list.len() as u16);
    let c = b.subrange(at, at + 2);
    assert(c[0] == b[at] && c[1] == b[at + 1]);
    assert(w.len() == 4 * list.len());
    bytes::lemma_words_inside(b, at + 2, list);
}

/// Neighbor lists read back from their bytes.
proof fn lemma_lists_round_trip(lists: Seq<Seq<u32>>, b: Seq<u8>, at: int)
    requires
        0 <= at,
        at + encoding::lists_bytes(lists).len() <= b.len(),
        b.subrange(at, at + encoding::lists_bytes(lists).len()) == encoding::lists_bytes(lists),
        forall|l: int| 0 <= l < lists.len() ==> (#[trigger] lists[l]).len() <= 0xffff,
    ensures
        encoding::lists_of(b, at, lists.len()) == Ok::<(Seq<Seq<u32>>, int), RecordFault>(
            (lists, at + encoding::lists_bytes(lists).len()),
        ),
    decreases lists.len(),
{
    if lists.len() > 0 {
        let front = lists.drop_last();
        let last = lists.last();
        let fb = encoding::lists_bytes(front);
        let lb = encoding::list_bytes(last);
        let p = at + fb.len();
        bytes::lemma_subrange_parts(b, at, fb, lb);
        assert forall|l: int| 0 <= l < front.len() implies (#[trigger] front[l]).len()
            <= 0xffff by {
            assert(front[l] == lists[l]);
        }
        lemma_lists_round_trip(front, b, at);
        assert(lists[lists.len() - 1].len() <= 0xffff);
        lemma_list_inside(last, b, p);
        assert(front.push(last) =~= lists);
    } else {
        assert(lists =~= Seq::empty());
    }
}

/// Neighbor lists that read were written as the bytes they are read from.
proof fn lemma_lists_canonical(b: Seq<u8>, at: int, n: nat)
    requires
        0 <= at <= b.len(),
    ensures
        encoding::lists_of(b, at, n) matches Ok((lists, end)) ==> {
            &&& lists.len() == n
            &&& at <= end <= b.len()
            &&& b.subrange(at, end) == encoding::lists_bytes(lists)
            &&& forall|l: int| 0 <= l < lists.len() ==> (#[trigger] lists[l]).len() <= 0xffff
        },
    decreases n,
{
    if n == 0 {
        assert(b.subrange(at, at) =~= Seq::<u8>::empty());
    } else {
        lemma_lists_canonical(b, at, (n - 1) as nat);
        if let Ok((lists, end)) = encoding::lists_of(b, at, n) {
            let (front, p) = encoding::lists_of(b, at, (n - 1) as nat)->Ok_0;
            let count = bytes::le16(b, p);
            let last = bytes::words_at(b, p + 2, count as nat);
            bytes::lemma_le16_bytes(b, p);
            bytes::lemma_words_at_bytes(b, p + 2, count as nat);
            assert(lists.drop_last() =~= front);
            assert(lists.last() == last);
            assert(b.subrange(at, end) =~= b.subrange(at, p) + (b.subrange(p, p + 2) + b.subrange(
                p + 2,
                end,
            )));
            assert forall|l: int| 0 <= l < lists.len() implies (#[trigger] lists[l]).len()
                <= 0xffff by {
                if l < n - 1 {
                    assert(lists[l] == front[l]);
                }
            }
        }
    }
}

/// The bytes of a record, part by part.
proof fn lemma_record_parts(r: RecordData)
    requires
        1 <= r.neighbors.len() <= 64,
    ensures
        ({
            let b = encoding::record_bytes(r);
            let at = 2 + 4 * r.vector.len() as int;
            &&& b.len() == at + 1 + encoding::lists_bytes(r.neighbors).len()
            &&& b[0] == 0
            &&& b[1] == 0
            &&& b[at] == r.neighbors.len()
            &&& b.subrange(2, at) == bytes::words_le(r.vector)
            &&& b.subrange(at + 1, b.len() as int) == encoding::lists_bytes(r.neighbors)
        }),
{
    let b = encoding::record_bytes(r);
    let at = 2 + 4 * r.vector.len() as int;
    bytes::lemma_words_le(r.vector);
    assert(b.subrange(2, at) =~= bytes::words_le(r.vector));
    assert(b.subrange(at + 1, b.len() as int) =~= encoding::lists_bytes(r.neighbors));
}

/// A record that can be encoded reads back from its bytes, whatever follows
/// them.
pub proof fn lemma_record_round_trip(r: RecordData, dim: u16, tail: Seq<u8>)
    requires
        encoding::record_fault(dim, r) is None,
    ensures
        encoding::record_of(encoding::record_bytes(r) + tail, dim) == Ok::<
            (RecordData, int),
            RecordFault,
        >((r, encoding::record_bytes(r).len() as int)),
{
    let e = encoding::record_bytes(r);
    let b = e + tail;
    let at = 2 + 4 * dim as int;
    let lb = encoding::lists_bytes(r.neighbors);
    lemma_record_parts(r);
    encoding::lemma_no_wide_level(r.neighbors, r.neighbors.len());
    assert(b[0] == e[0] && b[1] == e[1] && b[at] == e[at]);
    assert(b.subrange(2, at) =~= e.subrange(2, at));
    bytes::lemma_words_inside(b, 2, r.vector);
    assert(b.subrange(at + 1, at + 1 + lb.len()) =~= e.subrange(at + 1, e.len() as int));
    lemma_lists_round_trip(r.neighbors, b, at + 1);
}

/// A record that reads can be encoded, and was written as the bytes it is
/// read from.
pub proof fn lemma_record_is_canonical(b: Seq<u8>, dim: u16)
    ensures
        encoding::record_of(b, dim) matches Ok((r, used)) ==> {
            &&& encoding::record_fault(dim, r) is None
            &&& 0 < used <= b.len()
            &&& b.subrange(0, used) == encoding::record_bytes(r)
        },
{
    if let Ok((r, used)) = encoding::record_of(b, dim) {
        let at = 2 + 4 * dim as int;
        lemma_lists_canonical(b, at + 1, b[at] as nat);
        encoding::lemma_no_wide_level(r.neighbors, r.neighbors.len());
        lemma_record_parts(r);
        bytes::lemma_words_at_bytes(b, 2, dim as nat);
        let e = encoding::record_bytes(r);
        assert(r.neighbors.len() == b[at]);
        assert(b.subrange(0, used) =~= seq![0u8, 0u8] + b.subrange(2, at) + seq![b[at]]
            + b.subrange(at + 1, used));
        assert(b.subrange(0, used) =~= e);
    }
}

/// What makes a graph legal: the header's parameters are in their domains
/// and count the nodes; every vector has the dimension and finite
/// components; every node has 1 to 64 levels; an empty graph has no entry
/// point, any other is entered at a node whose top level no node exceeds;
/// every list is within its cap, strictly ascending, without its owner, and
/// names nodes that have the list's level.
pub open spec fn legal_graph(h: SnapshotHeader, nodes: Seq<RecordData>) -> bool {
    &&& encoding::header_fault(h) is None
    &&& h.node_count == nodes.len()
    &&& forall|i: int| 0 <= i < nodes.len() ==> legal_node(h, #[trigger] nodes[i])
    &&& h.node_count == 0 ==> h.entry_point == encoding::EMPTY_GRAPH_ENTRY_POINT && h.max_level == 0
    &&& h.node_count != 0 ==> h.entry_point < h.node_count && nodes[h.entry_point as int].neighbors.len()
        == h.max_level + 1
    &&& forall|i: int|
        0 <= i < nodes.len() ==> (#[trigger] nodes[i]).neighbors.len() <= h.max_level + 1
    &&& forall|i: int, l: int|
        0 <= i < nodes.len() && 0 <= l < nodes[i].neighbors.len() ==> legal_list(
            h,
            nodes,
            i,
            l,
            #[trigger] nodes[i].neighbors[l],
        )
}

/// A node that is legal by itself.
pub open spec fn legal_node(h: SnapshotHeader, r: RecordData) -> bool {
    &&& r.vector.len() == h.dim
    &&& graph::all_finite(r.vector)
    &&& 1 <= r.neighbors.len() <= encoding::MAX_LEVEL_COUNT
}

/// A legal list of node `i` on level `l`.
pub open spec fn legal_list(
    h: SnapshotHeader,
    nodes: Seq<RecordData>,
    i: int,
    l: int,
    list: Seq<u32>,
) -> bool {
    &&& list.len() <= encoding::degree_cap(h, l)
    &&& forall|j: int| 0 <= j < list.len() ==> legal_edge(h, nodes, i, l, list, j)
}

/// A legal edge: the neighbor `j` of a list.
pub open spec fn legal_edge(
    h: SnapshotHeader,
    nodes: Seq<RecordData>,
    i: int,
    l: int,
    list: Seq<u32>,
    j: int,
) -> bool {
    &&& list[j] != i
    &&& j > 0 ==> list[j - 1] < list[j]
    &&& list[j] < h.node_count
    &&& l < nodes[list[j] as int].neighbors.len()
}

/// Edges without fault are the legal ones.
proof fn lemma_edges(
    h: SnapshotHeader,
    nodes: Seq<RecordData>,
    i: int,
    l: int,
    list: Seq<u32>,
    n: nat,
)
    requires
        n <= list.len(),
        h.node_count == nodes.len(),
        forall|k: int| 0 <= k < nodes.len() ==> legal_node(h, #[trigger] nodes[k]),
    ensures
        encoding::edges_fault(h, encoding::tops(nodes), i, l, list, n) is None <==> forall|j: int|
            0 <= j < n ==> legal_edge(h, nodes, i, l, list, j),
    decreases n,
{
    if n > 0 {
        lemma_edges(h, nodes, i, l, list, (n - 1) as nat);
        let j = n - 1;
        let levels = encoding::tops(nodes);
        if list[j] < h.node_count {
            assert(legal_node(h, nodes[list[j] as int]));
            assert(levels[list[j] as int] == nodes[list[j] as int].neighbors.len() - 1);
        }
        assert(encoding::edge_fault(h, levels, i, l, list, j) is None <==> legal_edge(
            h,
            nodes,
            i,
            l,
            list,
            j,
        ));
    }
}

/// Lists without fault are the legal ones.
proof fn lemma_adjacency(
    h: SnapshotHeader,
    nodes: Seq<RecordData>,
    i: int,
    lists: Seq<Seq<u32>>,
    n: nat,
)
    requires
        n <= lists.len(),
        h.node_count == nodes.len(),
        forall|k: int| 0 <= k < nodes.len() ==> legal_node(h, #[trigger] nodes[k]),
    ensures
        encoding::adjacency_fault(h, encoding::tops(nodes), i, lists, n) is None <==> forall|l: int|
            0 <= l < n ==> legal_list(h, nodes, i, l, #[trigger] lists[l]),
    decreases n,
{
    if n > 0 {
        lemma_adjacency(h, nodes, i, lists, (n - 1) as nat);
        lemma_edges(h, nodes, i, n - 1, lists[n - 1], lists[n - 1].len());
        let ok = encoding::adjacency_fault(h, encoding::tops(nodes), i, lists, n) is None;
        if ok {
            assert forall|l: int| 0 <= l < n implies legal_list(
                h,
                nodes,
                i,
                l,
                #[trigger] lists[l],
            ) by {}
        } else if forall|l: int| 0 <= l < n ==> legal_list(h, nodes, i, l, #[trigger] lists[l]) {
            assert(legal_list(h, nodes, i, n - 1, lists[n - 1]));
        }
    }
}

/// Nodes without fault of their own are the legal ones.
proof fn lemma_basics(h: SnapshotHeader, nodes: Seq<RecordData>, n: nat)
    requires
        n <= nodes.len(),
    ensures
        encoding::all_basics_fault(h, nodes, n) is None <==> forall|i: int|
            0 <= i < n ==> legal_node(h, #[trigger] nodes[i]),
    decreases n,
{
    if n > 0 {
        lemma_basics(h, nodes, (n - 1) as nat);
        if forall|i: int| 0 <= i < n ==> legal_node(h, #[trigger] nodes[i]) {
            assert(legal_node(h, nodes[n - 1]));
        }
    }
}

/// Edges of all nodes without fault are the legal ones.
proof fn lemma_all_adjacency(h: SnapshotHeader, nodes: Seq<RecordData>, n: nat)
    requires
        n <= nodes.len(),
        h.node_count == nodes.len(),
        forall|k: int| 0 <= k < nodes.len() ==> legal_node(h, #[trigger] nodes[k]),
    ensures
        encoding::all_adjacency_fault(h, encoding::tops(nodes), nodes, n) is None
            <==> forall|i: int, l: int|
            0 <= i < n && 0 <= l < nodes[i].neighbors.len() ==> legal_list(
                h,
                nodes,
                i,
                l,
                #[trigger] nodes[i].neighbors[l],
            ),
    decreases n,
{
    if n > 0 {
        lemma_all_adjacency(h, nodes, (n - 1) as nat);
        let lists = nodes[n - 1].neighbors;
        lemma_adjacency(h, nodes, n - 1, lists, lists.len());
        if encoding::all_adjacency_fault(h, encoding::tops(nodes), nodes, n) is Some {
            if encoding::all_adjacency_fault(h, encoding::tops(nodes), nodes, (n - 1) as nat)
                is None {
                let l = choose|l: int|
                    0 <= l < lists.len() && !legal_list(h, nodes, n - 1, l, #[trigger] lists[l]);
                assert(!legal_list(h, nodes, n - 1, l, nodes[n - 1].neighbors[l]));
            }
        }
    }
}

/// No node above `max_level`, by what it means.
proof fn lemma_above(levels: Seq<u8>, max_level: u8, n: nat)
    requires
        n <= levels.len(),
    ensures
        encoding::above(levels, max_level, n) is None <==> forall|i: int|
            0 <= i < n ==> #[trigger] levels[i] <= max_level,
    decreases n,
{
    if n > 0 {
        lemma_above(levels, max_level, (n - 1) as nat);
        if forall|i: int| 0 <= i < n ==> #[trigger] levels[i] <= max_level {
            assert(levels[n - 1] <= max_level);
        }
    }
}

/// The checks that both paths run accept exactly the legal graphs.
pub proof fn lemma_checks_are_legality(h: SnapshotHeader, nodes: Seq<RecordData>)
    ensures
        legal_graph(h, nodes) <==> (encoding::header_fault(h) is None && encoding::graph_fault(
            h,
            nodes,
        ) is None),
{
    if h.node_count == nodes.len() {
        lemma_basics(h, nodes, nodes.len());
        let levels = encoding::tops(nodes);
        lemma_above(levels, h.max_level, levels.len());
        if forall|i: int| 0 <= i < nodes.len() ==> legal_node(h, #[trigger] nodes[i]) {
            lemma_all_adjacency(h, nodes, nodes.len());
            assert forall|i: int| 0 <= i < nodes.len() implies #[trigger] levels[i]
                == nodes[i].neighbors.len() - 1 by {
                assert(legal_node(h, nodes[i]));
            }
            if legal_graph(h, nodes) {
                assert forall|i: int| 0 <= i < levels.len() implies #[trigger] levels[i]
                    <= h.max_level by {
                    assert(nodes[i].neighbors.len() <= h.max_level + 1);
                }
            }
            if encoding::entry_fault(h, levels) is None {
                assert forall|i: int| 0 <= i < nodes.len() implies (
                #[trigger] nodes[i]).neighbors.len() <= h.max_level + 1 by {
                    assert(levels[i] <= h.max_level);
                }
            }
        }
    }
}

/// A record that can be encoded reads back from the place of its bytes.
proof fn lemma_record_reads_at(r: RecordData, dim: u16, b: Seq<u8>, p: int)
    requires
        encoding::record_fault(dim, r) is None,
        0 <= p,
        p + encoding::record_bytes(r).len() <= b.len(),
        b.subrange(p, p + encoding::record_bytes(r).len()) == encoding::record_bytes(r),
    ensures
        encoding::record_of(b.subrange(p, b.len() as int), dim) == Ok::<
            (RecordData, int),
            RecordFault,
        >((r, encoding::record_bytes(r).len() as int)),
{
    let q = p + encoding::record_bytes(r).len();
    let end = b.len() as int;
    lemma_record_round_trip(r, dim, b.subrange(q, end));
    assert(b.subrange(p, end) =~= b.subrange(p, q) + b.subrange(q, end));
}

/// Records read back from their bytes.
proof fn lemma_records_round_trip(nodes: Seq<RecordData>, dim: u16, b: Seq<u8>, at: int)
    requires
        0 <= at,
        at + encoding::records_bytes(nodes).len() <= b.len(),
        b.subrange(at, at + encoding::records_bytes(nodes).len()) == encoding::records_bytes(nodes),
        forall|i: int|
            0 <= i < nodes.len() ==> encoding::record_fault(dim, #[trigger] nodes[i]) is None,
    ensures
        encoding::records_of(b, at, nodes.len(), dim) == Ok::<(Seq<RecordData>, int), HnswError>(
            (nodes, at + encoding::records_bytes(nodes).len()),
        ),
    decreases nodes.len(),
{
    if nodes.len() > 0 {
        let front = nodes.drop_last();
        let last = nodes.last();
        let fb = encoding::records_bytes(front);
        let lb = encoding::record_bytes(last);
        let p = at + fb.len();
        bytes::lemma_subrange_parts(b, at, fb, lb);
        assert forall|i: int| 0 <= i < front.len() implies encoding::record_fault(
            dim,
            #[trigger] front[i],
        ) is None by {
            assert(front[i] == nodes[i]);
        }
        lemma_records_round_trip(front, dim, b, at);
        assert(encoding::record_fault(dim, nodes[nodes.len() - 1]) is None);
        lemma_record_reads_at(last, dim, b, p);
        assert(front.push(last) =~= nodes);
    } else {
        assert(nodes =~= Seq::empty());
    }
}

/// A run of bytes ends with the record that is read from its last part.
proof fn lemma_last_record(b: Seq<u8>, at: int, p: int, dim: u16)
    requires
        0 <= at <= p <= b.len(),
    ensures
        encoding::record_of(b.subrange(p, b.len() as int), dim) matches Ok((r, used)) ==> {
            &&& p < p + used <= b.len()
            &&& b.subrange(at, p + used) == b.subrange(at, p) + encoding::record_bytes(r)
        },
{
    let rest = b.subrange(p, b.len() as int);
    lemma_record_is_canonical(rest, dim);
    if let Ok((r, used)) = encoding::record_of(rest, dim) {
        bytes::lemma_subrange_joined(b, at, p, p + used);
    }
}

/// Records that read were written as the bytes they are read from.
proof fn lemma_records_canonical(b: Seq<u8>, at: int, n: nat, dim: u16)
    requires
        0 <= at <= b.len(),
    ensures
        encoding::records_of(b, at, n, dim) matches Ok((nodes, end)) ==> {
            &&& nodes.len() == n
            &&& at <= end <= b.len()
            &&& b.subrange(at, end) == encoding::records_bytes(nodes)
        },
    decreases n,
{
    if n == 0 {
        assert(b.subrange(at, at) =~= Seq::<u8>::empty());
    } else {
        lemma_records_canonical(b, at, (n - 1) as nat, dim);
        if let Ok((nodes, end)) = encoding::records_of(b, at, n, dim) {
            let (front, p) = encoding::records_of(b, at, (n - 1) as nat, dim)->Ok_0;
            lemma_last_record(b, at, p, dim);
            assert(nodes.drop_last() =~= front);
        }
    }
}

/// The write path's checks, record by record, are the read path's.
proof fn lemma_pushes_are_legality(h: SnapshotHeader, nodes: Seq<RecordData>, n: nat)
    requires
        n <= nodes.len(),
        h.node_count == nodes.len(),
    ensures
        encoding::pushes_fault(h, encoding::tops(nodes), nodes, n) is None <==> (
        encoding::all_basics_fault(h, nodes, n) is None && encoding::all_adjacency_fault(
            h,
            encoding::tops(nodes),
            nodes,
            n,
        ) is None),
    decreases n,
{
    if n > 0 {
        lemma_pushes_are_legality(h, nodes, (n - 1) as nat);
    }
}

/// The write path encodes exactly the legal graphs.
pub proof fn lemma_legal_graphs_encode(h: SnapshotHeader, nodes: Seq<RecordData>)
    ensures
        legal_graph(h, nodes) <==> encoding::encoded(h, nodes) is Ok,
{
    lemma_checks_are_legality(h, nodes);
    if h.node_count == nodes.len() {
        lemma_pushes_are_legality(h, nodes, nodes.len());
    }
}

/// Every record of a legal graph can be encoded.
proof fn lemma_legal_records(h: SnapshotHeader, nodes: Seq<RecordData>)
    requires
        legal_graph(h, nodes),
    ensures
        forall|i: int|
            0 <= i < nodes.len() ==> encoding::record_fault(h.dim, #[trigger] nodes[i]) is None,
{
    assert forall|i: int| 0 <= i < nodes.len() implies encoding::record_fault(
        h.dim,
        #[trigger] nodes[i],
    ) is None by {
        let lists = nodes[i].neighbors;
        assert(legal_node(h, nodes[i]));
        assert forall|l: int| 0 <= l < lists.len() implies (#[trigger] lists[l]).len()
            <= 0xffff by {
            assert(legal_list(h, nodes, i, l, nodes[i].neighbors[l]));
        }
        encoding::lemma_no_wide_level(lists, lists.len());
    }
}

/// The bytes of records that can be encoded are at least those of as many
/// smallest records.
proof fn lemma_records_min(nodes: Seq<RecordData>, dim: u16)
    requires
        forall|i: int|
            0 <= i < nodes.len() ==> encoding::record_fault(dim, #[trigger] nodes[i]) is None,
    ensures
        encoding::records_bytes(nodes).len() >= nodes.len() * encoding::min_record_size(dim),
    decreases nodes.len(),
{
    let min = encoding::min_record_size(dim);
    if nodes.len() > 0 {
        let front = nodes.drop_last();
        let last = nodes.last();
        assert forall|i: int| 0 <= i < front.len() implies encoding::record_fault(
            dim,
            #[trigger] front[i],
        ) is None by {
            assert(front[i] == nodes[i]);
        }
        lemma_records_min(front, dim);
        assert(encoding::record_fault(dim, nodes[nodes.len() - 1]) is None);
        lemma_record_parts(last);
        assert(encoding::lists_bytes(last.neighbors).len() >= 2);
        assert(nodes.len() * min == front.len() * min + min) by (nonlinear_arith)
            requires
                nodes.len() == front.len() + 1,
        ;
    } else {
        assert(0 * min == 0);
    }
}

/// What the write path encodes, the read path gives back: the same header
/// and the same records, bit for bit.
pub proof fn lemma_body_round_trip(h: SnapshotHeader, nodes: Seq<RecordData>)
    requires
        legal_graph(h, nodes),
    ensures
        encoding::encoded(h, nodes) == Ok::<Seq<u8>, HnswError>(encoding::body_bytes(h, nodes)),
        encoding::body_of(encoding::body_bytes(h, nodes)) == Ok::<
            (SnapshotHeader, Seq<RecordData>),
            HnswError,
        >((h, nodes)),
{
    let rb = encoding::records_bytes(nodes);
    let b = encoding::body_bytes(h, nodes);
    let min = encoding::min_record_size(h.dim);
    lemma_legal_graphs_encode(h, nodes);
    lemma_checks_are_legality(h, nodes);
    lemma_legal_records(h, nodes);
    lemma_header_fields(h);
    lemma_header_round_trip(h, rb);
    assert(b.subrange(25, b.len() as int) =~= rb);
    lemma_records_round_trip(nodes, h.dim, b, 25);
    lemma_records_min(nodes, h.dim);
    let rest = b.len() - 25;
    assert(h.node_count <= rest / min) by (nonlinear_arith)
        requires
            h.node_count * min <= rest,
            min > 0,
    ;
}

/// What the read path accepts is a legal graph, and the write path encodes
/// it as the bytes it was read from: no two byte streams read as the same
/// graph.
pub proof fn lemma_body_is_canonical(b: Seq<u8>)
    ensures
        encoding::body_of(b) matches Ok((h, nodes)) ==> legal_graph(h, nodes) && encoding::encoded(
            h,
            nodes,
        ) == Ok::<Seq<u8>, HnswError>(b),
{
    if let Ok((h, nodes)) = encoding::body_of(b) {
        lemma_header_is_canonical(b);
        lemma_records_canonical(b, 25, h.node_count as nat, h.dim);
        lemma_checks_are_legality(h, nodes);
        lemma_legal_graphs_encode(h, nodes);
        assert(b =~= b.subrange(0, 25) + b.subrange(25, b.len() as int));
    }
}

/// A body with more bytes behind it reads as the body reads, up to where the
/// body ends.
proof fn lemma_body_reads_on(b: Seq<u8>, more: Seq<u8>)
    requires
        encoding::body_of(b) is Ok,
    ensures
        ({
            let (h, nodes) = encoding::body_of(b)->Ok_0;
            &&& encoding::header_of(b + more) == Ok::<SnapshotHeader, HnswError>(h)
            &&& h.node_count == nodes.len()
            &&& encoding::records_of(b + more, 25, nodes.len(), h.dim) == Ok::<
                (Seq<RecordData>, int),
                HnswError,
            >((nodes, b.len() as int))
        }),
{
    let (h, nodes) = encoding::body_of(b)->Ok_0;
    let c = b + more;
    let hb = encoding::header_bytes(h);
    let rb = encoding::records_bytes(nodes);
    lemma_body_is_canonical(b);
    lemma_legal_records(h, nodes);
    lemma_header_len(h);
    assert(b == hb + rb);
    lemma_header_round_trip(h, rb + more);
    assert(c =~= hb + (rb + more));
    assert(c.subrange(25, (25 + rb.len()) as int) =~= rb);
    lemma_records_round_trip(nodes, h.dim, c, 25);
}

/// No body is the beginning of another: of two that the read path accepts,
/// neither goes on where the other ends.
pub proof fn lemma_no_body_begins_another(b: Seq<u8>, more: Seq<u8>)
    requires
        encoding::body_of(b) is Ok,
        encoding::body_of(b + more) is Ok,
    ensures
        more.len() == 0,
{
    lemma_body_reads_on(b, more);
}

/// The checksum in front of a body verifies and comes off again.
pub proof fn lemma_checksum_round_trip(body: Seq<u8>)
    ensures
        encoding::unwrapped(encoding::wrapped(body)) == Ok::<Seq<u8>, HnswError>(body),
{
    let b = encoding::wrapped(body);
    let c = bytes::u32_le(crc::crc32_of(body));
    bytes::lemma_u32_le(crc::crc32_of(body));
    assert(b[0] == c[0] && b[1] == c[1] && b[2] == c[2] && b[3] == c[3]);
    assert(b.subrange(4, b.len() as int) =~= body);
}

/// Bytes whose checksum verifies are their body with its checksum.
pub proof fn lemma_checksum_is_canonical(b: Seq<u8>)
    ensures
        encoding::unwrapped(b) matches Ok(body) ==> b == encoding::wrapped(body),
{
    if let Ok(body) = encoding::unwrapped(b) {
        bytes::lemma_le32_bytes(b, 0);
        assert(b =~= b.subrange(0, 4) + body);
    }
}

/// Lists within their caps take at most the bytes of full ones.
proof fn lemma_lists_max(h: SnapshotHeader, lists: Seq<Seq<u32>>)
    requires
        forall|l: int|
            0 <= l < lists.len() ==> (#[trigger] lists[l]).len() <= encoding::degree_cap(h, l),
    ensures
        encoding::lists_bytes(lists).len() <= if lists.len() == 0 {
            0
        } else {
            (2 + 4 * h.m_max0) + (lists.len() - 1) * (2 + 4 * h.m)
        },
    decreases lists.len(),
{
    if lists.len() > 0 {
        let front = lists.drop_last();
        let last = lists.last();
        let full = 2 + 4 * h.m;
        assert forall|l: int| 0 <= l < front.len() implies (#[trigger] front[l]).len()
            <= encoding::degree_cap(h, l) by {
            assert(front[l] == lists[l]);
        }
        lemma_lists_max(h, front);
        assert(lists[lists.len() - 1].len() <= encoding::degree_cap(h, lists.len() - 1));
        bytes::lemma_words_le(last);
        let n = lists.len() as int;
        if n == 1 {
            assert((n - 1) * full == 0) by (nonlinear_arith)
                requires
                    n == 1,
            ;
        } else {
            assert((n - 1) * full == (n - 2) * full + full) by (nonlinear_arith);
        }
    }
}

/// Records of a legal graph take at most the bytes of as many largest
/// records.
proof fn lemma_records_max(h: SnapshotHeader, nodes: Seq<RecordData>)
    requires
        forall|i: int|
            0 <= i < nodes.len() ==> {
                &&& legal_node(h, #[trigger] nodes[i])
                &&& forall|l: int|
                    0 <= l < nodes[i].neighbors.len() ==> (
                    #[trigger] nodes[i].neighbors[l]).len() <= encoding::degree_cap(h, l)
            },
    ensures
        encoding::records_bytes(nodes).len() <= nodes.len() * encoding::max_record_size(h),
    decreases nodes.len(),
{
    let max = encoding::max_record_size(h);
    if nodes.len() > 0 {
        let front = nodes.drop_last();
        let last = nodes.last();
        assert forall|i: int| 0 <= i < front.len() implies {
            &&& legal_node(h, #[trigger] front[i])
            &&& forall|l: int|
                0 <= l < front[i].neighbors.len() ==> (#[trigger] front[i].neighbors[l]).len()
                    <= encoding::degree_cap(h, l)
        } by {
            assert(front[i] == nodes[i]);
        }
        lemma_records_max(h, front);
        assert(legal_node(h, nodes[nodes.len() - 1]));
        lemma_record_parts(last);
        lemma_lists_max(h, last.neighbors);
        let n = last.neighbors.len() as int;
        let full = 2 + 4 * h.m;
        assert((n - 1) * full <= 63 * full) by (nonlinear_arith)
            requires
                n <= 64,
                full >= 0,
        ;
        assert(nodes.len() * max == front.len() * max + max) by (nonlinear_arith)
            requires
                nodes.len() == front.len() + 1,
        ;
    } else {
        assert(0 * max == 0);
    }
}

/// The body of a legal graph is no longer than the bound that its header
/// alone gives, and no shorter than as many smallest records.
pub proof fn lemma_body_size(h: SnapshotHeader, nodes: Seq<RecordData>)
    requires
        legal_graph(h, nodes),
    ensures
        25 + h.node_count * encoding::min_record_size(h.dim) <= encoding::body_bytes(h, nodes).len(),
        encoding::body_bytes(h, nodes).len() <= encoding::spec_max_body_size(h),
{
    lemma_header_fields(h);
    lemma_legal_records(h, nodes);
    lemma_records_min(nodes, h.dim);
    assert forall|i: int| 0 <= i < nodes.len() implies {
        &&& legal_node(h, #[trigger] nodes[i])
        &&& forall|l: int|
            0 <= l < nodes[i].neighbors.len() ==> (#[trigger] nodes[i].neighbors[l]).len()
                <= encoding::degree_cap(h, l)
    } by {
        assert forall|l: int| 0 <= l < nodes[i].neighbors.len() implies (
        #[trigger] nodes[i].neighbors[l]).len() <= encoding::degree_cap(h, l) by {
            assert(legal_list(h, nodes, i, l, nodes[i].neighbors[l]));
        }
    }
    lemma_records_max(h, nodes);
}

} // verus!
