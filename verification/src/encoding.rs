//! The snapshot byte stream.
//!
//! ```text
//! snapshot        := crc32:u32 (over body) | body
//! body            := snapshot_header | node_record[node_count]
//! snapshot_header := magic:u32 | format_version:u16 | dim:u16 |
//!                    m:u16 | m_max0:u16 | ef_construction:u32 |
//!                    node_count:u32 | entry_point:u32 | max_level:u8
//! node_record     := flags:u8 | reserved:u8 | vector:f32[dim] |
//!                    level_count:u8 |
//!                    per-level { neighbor_count:u16 | neighbors:u32[.] }
//! ```
//!
//! All fields are little-endian. Position is identity: the i-th record is
//! node i. `level_count` is the top level plus one, so it is at least 1. An
//! empty graph has the entry point of no node and `max_level` 0. `flags` and
//! `reserved` are 0. The query-time default beam width is not stored.

use vstd::prelude::*;

use vstd::slice::slice_subrange;

use crate::bytes;
use crate::crc;
use crate::error::HnswError;
use crate::fault::CodecFault;
use crate::fault::Reason;
use crate::fault::RecordFault;
use crate::graph;
use crate::params;
use crate::params::HnswParams;
use crate::params::NodeId;

verus! {

/// The bytes `HNSW` read as a little-endian word.
pub const SNAPSHOT_MAGIC: u32 = 0x5753_4E48;

/// Snapshot format version.
pub const FORMAT_VERSION: u16 = 1;

/// Bytes of the snapshot header.
pub const SNAPSHOT_HEADER_SIZE: usize = 25;

/// Bytes of the checksum prefix.
pub const CRC32_SIZE: usize = 4;

/// The entry point of an empty graph.
pub const EMPTY_GRAPH_ENTRY_POINT: u32 = 0xffff_ffff;

/// The largest `level_count` of a record. A level draw gives at most level
/// 53, so no graph comes near it; a record that claims more would cost far
/// more memory than it has bytes.
pub const MAX_LEVEL_COUNT: usize = 64;

/// The fixed-width snapshot header.
#[derive(Debug, Clone, Copy, PartialEq, Eq, Structural)]
pub struct SnapshotHeader {
    /// Vector dimension.
    pub dim: u16,
    /// Construction parameter `M`.
    pub m: u16,
    /// Construction parameter `M_max0`.
    pub m_max0: u16,
    /// Construction parameter `ef_construction`.
    pub ef_construction: u32,
    /// Number of node records that follow.
    pub node_count: u32,
    /// Entry-point id.
    pub entry_point: u32,
    /// Top level of the entry point.
    pub max_level: u8,
}

/// The error for a malformed stream or graph.
pub open spec fn corrupt(f: CodecFault) -> HnswError {
    HnswError::Corrupted(Reason::Codec(f))
}

/// The error for a malformed stream or graph.
pub fn corrupted(f: CodecFault) -> (r: HnswError)
    ensures
        r == corrupt(f),
{
    HnswError::Corrupted(Reason::Codec(f))
}

/// The error for input that cannot be encoded.
pub open spec fn unencodable(f: CodecFault) -> HnswError {
    HnswError::InvalidArgument(Reason::Codec(f))
}

/// The header's bytes.
pub open spec fn header_bytes(h: SnapshotHeader) -> Seq<u8> {
    bytes::u32_le(SNAPSHOT_MAGIC) + bytes::u16_le(FORMAT_VERSION) + bytes::u16_le(h.dim)
        + bytes::u16_le(h.m) + bytes::u16_le(h.m_max0) + bytes::u32_le(h.ef_construction)
        + bytes::u32_le(h.node_count) + bytes::u32_le(h.entry_point) + seq![h.max_level]
}

/// What is wrong with the construction parameters of a header, if anything;
/// the checks in this order.
pub open spec fn header_fault(h: SnapshotHeader) -> Option<CodecFault> {
    if h.dim == 0 {
        Some(CodecFault::HeaderDimZero)
    } else if h.m < 2 {
        Some(CodecFault::HeaderMBelowTwo { m: h.m })
    } else if h.ef_construction < h.m {
        Some(CodecFault::HeaderEfBelowM { ef: h.ef_construction, m: h.m })
    } else if h.m_max0 < h.m {
        Some(CodecFault::HeaderMMax0BelowM { m_max0: h.m_max0, m: h.m })
    } else {
        None
    }
}

/// The fields at the start of a byte sequence.
pub open spec fn header_fields(b: Seq<u8>) -> SnapshotHeader {
    SnapshotHeader {
        dim: bytes::le16(b, 6),
        m: bytes::le16(b, 8),
        m_max0: bytes::le16(b, 10),
        ef_construction: bytes::le32(b, 12),
        node_count: bytes::le32(b, 16),
        entry_point: bytes::le32(b, 20),
        max_level: b[24],
    }
}

/// What [`SnapshotHeader::decode`] answers; the checks in this order.
pub open spec fn header_of(b: Seq<u8>) -> Result<SnapshotHeader, HnswError> {
    if b.len() < SNAPSHOT_HEADER_SIZE {
        Err(corrupt(CodecFault::HeaderTruncated { len: b.len() as usize }))
    } else if bytes::le32(b, 0) != SNAPSHOT_MAGIC {
        Err(corrupt(CodecFault::BadMagic { magic: bytes::le32(b, 0) }))
    } else if bytes::le16(b, 4) != FORMAT_VERSION {
        Err(corrupt(CodecFault::UnknownVersion { version: bytes::le16(b, 4) }))
    } else if header_fault(header_fields(b)) is Some {
        Err(corrupt(header_fault(header_fields(b))->0))
    } else {
        Ok(header_fields(b))
    }
}

impl SnapshotHeader {
    /// The header's bytes.
    pub fn encode(&self) -> (r: [u8; SNAPSHOT_HEADER_SIZE])
        ensures
            r@ == header_bytes(*self),
    {
        let mut out: [u8; SNAPSHOT_HEADER_SIZE] = [0u8; 25];
        bytes::put_u32(&mut out, 0, SNAPSHOT_MAGIC);
        bytes::put_u16(&mut out, 4, FORMAT_VERSION);
        bytes::put_u16(&mut out, 6, self.dim);
        bytes::put_u16(&mut out, 8, self.m);
        bytes::put_u16(&mut out, 10, self.m_max0);
        bytes::put_u32(&mut out, 12, self.ef_construction);
        bytes::put_u32(&mut out, 16, self.node_count);
        bytes::put_u32(&mut out, 20, self.entry_point);
        out[24] = self.max_level;
        assert(out@ =~= header_bytes(*self));
        out
    }

    /// Decodes a header and validates it: magic, format version and the
    /// construction parameters.
    pub fn decode(b: &[u8]) -> (r: Result<Self, HnswError>)
        ensures
            r == header_of(b@),
    {
        if b.len() < SNAPSHOT_HEADER_SIZE {
            return Err(corrupted(CodecFault::HeaderTruncated { len: b.len() }));
        }
        let magic: u32 = bytes::get_u32(b, 0);
        if magic != SNAPSHOT_MAGIC {
            return Err(corrupted(CodecFault::BadMagic { magic }));
        }
        let version: u16 = bytes::get_u16(b, 4);
        if version != FORMAT_VERSION {
            return Err(corrupted(CodecFault::UnknownVersion { version }));
        }
        let h = SnapshotHeader {
            dim: bytes::get_u16(b, 6),
            m: bytes::get_u16(b, 8),
            m_max0: bytes::get_u16(b, 10),
            ef_construction: bytes::get_u32(b, 12),
            node_count: bytes::get_u32(b, 16),
            entry_point: bytes::get_u32(b, 20),
            max_level: b[24],
        };
        match h.validate_construction_params() {
            Err(e) => Err(e),
            Ok(_) => Ok(h),
        }
    }

    /// Checks the construction parameters: `dim != 0`, `m >= 2`,
    /// `ef_construction >= m`, `m_max0 >= m`. The write path runs it too, and
    /// so refuses what the read path would refuse.
    pub fn validate_construction_params(&self) -> (r: Result<(), HnswError>)
        ensures
            match header_fault(*self) {
                Some(f) => r == Err::<(), HnswError>(corrupt(f)),
                None => r == Ok::<(), HnswError>(()),
            },
    {
        if self.dim == 0 {
            return Err(corrupted(CodecFault::HeaderDimZero));
        }
        if self.m < 2 {
            return Err(corrupted(CodecFault::HeaderMBelowTwo { m: self.m }));
        }
        if self.ef_construction < self.m as u32 {
            return Err(
                corrupted(CodecFault::HeaderEfBelowM { ef: self.ef_construction, m: self.m }),
            );
        }
        if self.m_max0 < self.m {
            return Err(
                corrupted(CodecFault::HeaderMMax0BelowM { m_max0: self.m_max0, m: self.m }),
            );
        }
        Ok(())
    }
}

/// A decoded node record: the vector, and the neighbors level by level.
#[derive(Debug, Clone, PartialEq)]
pub struct NodeRecord {
    /// The vector's components, as the bits of `f32` numbers.
    pub vector: Vec<u32>,
    /// The neighbor lists; the index is the level, and level 0 is there.
    pub neighbors: Vec<Vec<NodeId>>,
}

/// A node record as contracts speak of it.
#[verifier::ext_equal]
pub struct RecordData {
    /// The vector's components.
    pub vector: Seq<u32>,
    /// The neighbor lists.
    pub neighbors: Seq<Seq<u32>>,
}

/// The raw ids of a list of nodes.
pub open spec fn ids(list: Seq<NodeId>) -> Seq<u32> {
    Seq::new(list.len(), |i: int| list[i].0)
}

/// The raw ids of lists of nodes.
pub open spec fn id_lists(lists: Seq<Vec<NodeId>>) -> Seq<Seq<u32>> {
    Seq::new(lists.len(), |i: int| ids(lists[i]@))
}

impl View for NodeRecord {
    type V = RecordData;

    open spec fn view(&self) -> RecordData {
        RecordData { vector: self.vector@, neighbors: id_lists(self.neighbors@) }
    }
}

/// The records of a list.
pub open spec fn records(nodes: Seq<NodeRecord>) -> Seq<RecordData> {
    Seq::new(nodes.len(), |i: int| nodes[i]@)
}

/// The bytes of one neighbor list.
pub open spec fn list_bytes(list: Seq<u32>) -> Seq<u8> {
    bytes::u16_le(list.len() as u16) + bytes::words_le(list)
}

/// The bytes of neighbor lists, one after the other.
pub open spec fn lists_bytes(lists: Seq<Seq<u32>>) -> Seq<u8>
    decreases lists.len(),
{
    if lists.len() == 0 {
        Seq::empty()
    } else {
        lists_bytes(lists.drop_last()) + list_bytes(lists.last())
    }
}

/// The bytes of a node record up to its lists.
pub open spec fn record_head(r: RecordData) -> Seq<u8> {
    seq![0u8, 0u8] + bytes::words_le(r.vector) + seq![r.neighbors.len() as u8]
}

/// The bytes of a node record.
pub open spec fn record_bytes(r: RecordData) -> Seq<u8> {
    seq![0u8, 0u8] + bytes::words_le(r.vector) + seq![r.neighbors.len() as u8] + lists_bytes(
        r.neighbors,
    )
}

/// The bytes of node records, one after the other.
pub open spec fn records_bytes(nodes: Seq<RecordData>) -> Seq<u8>
    decreases nodes.len(),
{
    if nodes.len() == 0 {
        Seq::empty()
    } else {
        records_bytes(nodes.drop_last()) + record_bytes(nodes.last())
    }
}

/// The bytes of a snapshot body.
pub open spec fn body_bytes(h: SnapshotHeader, nodes: Seq<RecordData>) -> Seq<u8> {
    header_bytes(h) + records_bytes(nodes)
}

/// The first level whose list is too long for its count field.
pub open spec fn wide_level(lists: Seq<Seq<u32>>, n: nat) -> Option<int>
    decreases n,
{
    if n == 0 {
        None
    } else {
        match wide_level(lists, (n - 1) as nat) {
            Some(l) => Some(l),
            None => if lists[n - 1].len() > 0xffff {
                Some(n - 1)
            } else {
                None
            },
        }
    }
}

/// Why a record cannot be encoded, if it cannot; the checks in this order.
pub open spec fn record_fault(dim: u16, r: RecordData) -> Option<CodecFault> {
    if r.vector.len() != dim {
        Some(CodecFault::VectorLen { len: r.vector.len() as usize, dim })
    } else if r.neighbors.len() == 0 {
        Some(CodecFault::LevelCountZero)
    } else if r.neighbors.len() > MAX_LEVEL_COUNT {
        Some(CodecFault::LevelCountAbove { count: r.neighbors.len() as usize })
    } else if !graph::all_finite(r.vector) {
        Some(CodecFault::NonFinite { index: graph::first_nonfinite(r.vector) as usize })
    } else {
        match wide_level(r.neighbors, r.neighbors.len()) {
            Some(l) => Some(
                CodecFault::DegreeWide {
                    level: l as usize,
                    len: r.neighbors[l].len() as usize,
                },
            ),
            None => None,
        }
    }
}

/// The bytes that are appended of a record that cannot be encoded: all that
/// stands before a list that is too long, and nothing where something else is
/// wrong.
pub open spec fn cut_record(dim: u16, r: RecordData) -> Seq<u8> {
    match record_fault(dim, r) {
        Some(CodecFault::DegreeWide { level, .. }) => record_head(r) + lists_bytes(
            r.neighbors.take(level as int),
        ),
        _ => Seq::empty(),
    }
}

/// Appends the raw ids of a list.
fn push_ids(out: &mut Vec<u8>, list: &Vec<NodeId>)
    ensures
        final(out)@ == old(out)@ + bytes::words_le(ids(list@)),
{
    let mut i: usize = 0;
    assert(out@ =~= old(out)@ + bytes::words_le(ids(list@).take(0)));
    while i < list.len()
        invariant
            i <= list@.len(),
            out@ == old(out)@ + bytes::words_le(ids(list@).take(i as int)),
        decreases list@.len() - i,
    {
        bytes::push_u32(out, list[i].0);
        proof {
            let w = ids(list@);
            bytes::lemma_words_le_push(w.take(i as int), w[i as int]);
            assert(w.take(i as int).push(w[i as int]) =~= w.take(i + 1));
        }
        i = i + 1;
        assert(out@ =~= old(out)@ + bytes::words_le(ids(list@).take(i as int)));
    }
    assert(ids(list@).take(list@.len() as int) =~= ids(list@));
}

/// A level found too wide among the first lists is found among all.
proof fn lemma_wide_level_stays(lists: Seq<Seq<u32>>, n: nat, all: nat)
    requires
        n <= all,
        wide_level(lists, n) is Some,
    ensures
        wide_level(lists, all) == wide_level(lists, n),
    decreases all - n,
{
    if n < all {
        lemma_wide_level_stays(lists, n, (all - 1) as nat);
    }
}

/// Where no level is too wide, every list fits its count field.
pub proof fn lemma_no_wide_level(lists: Seq<Seq<u32>>, n: nat)
    requires
        n <= lists.len(),
    ensures
        wide_level(lists, n) is None <==> forall|l: int|
            0 <= l < n ==> (#[trigger] lists[l]).len() <= 0xffff,
        wide_level(lists, n) matches Some(l) ==> 0 <= l < n && lists[l].len() > 0xffff,
    decreases n,
{
    if n > 0 {
        lemma_no_wide_level(lists, (n - 1) as nat);
        if wide_level(lists, n) is None {
            assert forall|l: int| 0 <= l < n implies (#[trigger] lists[l]).len() <= 0xffff by {
                if l == n - 1 {
                    assert(lists[n - 1].len() <= 0xffff);
                }
            }
        } else if wide_level(lists, (n - 1) as nat) is None {
            assert(lists[n - 1].len() > 0xffff);
        }
    }
}

/// Appends one node record. A record that the decoder would refuse is
/// refused here. Nothing is then appended, but for a list that is too long
/// for its count field: it is found when its turn comes.
pub fn encode_node_record(
    out: &mut Vec<u8>,
    dim: u16,
    vector: &[u32],
    neighbors: &[Vec<NodeId>],
) -> (r: Result<(), HnswError>)
    ensures
        ({
            let data = RecordData { vector: vector@, neighbors: id_lists(neighbors@) };
            match record_fault(dim, data) {
                Some(f) => r == Err::<(), HnswError>(unencodable(f)) && final(out)@ == old(out)@
                    + cut_record(dim, data),
                None => r == Ok::<(), HnswError>(()) && final(out)@ == old(out)@ + record_bytes(
                    data,
                ),
            }
        }),
{
    let ghost data = RecordData { vector: vector@, neighbors: id_lists(neighbors@) };
    let ghost lists = id_lists(neighbors@);
    assert(old(out)@ + Seq::<u8>::empty() =~= old(out)@);
    if vector.len() != dim as usize {
        return Err(
            HnswError::InvalidArgument(
                Reason::Codec(CodecFault::VectorLen { len: vector.len(), dim }),
            ),
        );
    }
    if neighbors.len() == 0 {
        return Err(HnswError::InvalidArgument(Reason::Codec(CodecFault::LevelCountZero)));
    }
    if neighbors.len() > MAX_LEVEL_COUNT {
        return Err(
            HnswError::InvalidArgument(
                Reason::Codec(CodecFault::LevelCountAbove { count: neighbors.len() }),
            ),
        );
    }
    match graph::find_nonfinite(vector) {
        Some(index) => {
            return Err(
                HnswError::InvalidArgument(Reason::Codec(CodecFault::NonFinite { index })),
            );
        },
        None => {},
    }
    out.push(0);
    out.push(0);
    bytes::push_words(out, vector);
    out.push(neighbors.len() as u8);
    let ghost before = out@;
    assert(before =~= old(out)@ + record_head(data));
    let mut i: usize = 0;
    assert(out@ =~= before + lists_bytes(lists.take(0)));
    while i < neighbors.len()
        invariant
            i <= neighbors@.len(),
            lists == id_lists(neighbors@),
            data == (RecordData { vector: vector@, neighbors: lists }),
            vector@.len() == dim,
            1 <= neighbors@.len() <= MAX_LEVEL_COUNT,
            graph::all_finite(vector@),
            before == old(out)@ + record_head(data),
            wide_level(lists, i as nat) is None,
            out@ == before + lists_bytes(lists.take(i as int)),
        decreases neighbors@.len() - i,
    {
        assert(lists[i as int] == ids(neighbors@[i as int]@));
        if neighbors[i].len() > 0xffff {
            proof {
                assert(wide_level(lists, (i + 1) as nat) == Some(i as int));
                lemma_wide_level_stays(lists, (i + 1) as nat, lists.len());
                assert(out@ =~= old(out)@ + cut_record(dim, data));
            }
            return Err(
                HnswError::InvalidArgument(
                    Reason::Codec(CodecFault::DegreeWide { level: i, len: neighbors[i].len() }),
                ),
            );
        }
        bytes::push_u16(out, neighbors[i].len() as u16);
        push_ids(out, &neighbors[i]);
        proof {
            assert(lists.take(i + 1).drop_last() =~= lists.take(i as int));
            assert(lists.take(i + 1).last() == lists[i as int]);
        }
        i = i + 1;
        assert(out@ =~= before + lists_bytes(lists.take(i as int)));
    }
    proof {
        assert(lists.take(neighbors@.len() as int) =~= lists);
        assert(out@ =~= old(out)@ + record_bytes(data));
    }
    Ok(())
}

/// The lists that start at `at`: `n` of them, and where they end.
pub open spec fn lists_of(b: Seq<u8>, at: int, n: nat) -> Result<
    (Seq<Seq<u32>>, int),
    RecordFault,
>
    decreases n,
{
    if n == 0 {
        Ok((Seq::empty(), at))
    } else {
        match lists_of(b, at, (n - 1) as nat) {
            Err(f) => Err(f),
            Ok((lists, p)) => if b.len() - p < 2 {
                Err(
                    RecordFault::Truncated {
                        need: 2,
                        what: "neighbor_count",
                        have: (b.len() - p) as usize,
                    },
                )
            } else if b.len() - p - 2 < 4 * bytes::le16(b, p) {
                Err(
                    RecordFault::Truncated {
                        need: (4 * bytes::le16(b, p)) as usize,
                        what: "neighbors",
                        have: (b.len() - p - 2) as usize,
                    },
                )
            } else {
                Ok(
                    (
                        lists.push(bytes::words_at(b, p + 2, bytes::le16(b, p) as nat)),
                        p + 2 + 4 * bytes::le16(b, p),
                    ),
                )
            },
        }
    }
}

/// The record at the start of a byte sequence, and its length; the checks in
/// this order.
pub open spec fn record_of(b: Seq<u8>, dim: u16) -> Result<(RecordData, int), RecordFault> {
    let at = 2 + 4 * dim;
    let vector = bytes::words_at(b, 2, dim as nat);
    if b.len() < 1 {
        Err(RecordFault::Truncated { need: 1, what: "flags", have: 0 })
    } else if b[0] != 0 {
        Err(RecordFault::Flags { byte: b[0] })
    } else if b.len() < 2 {
        Err(RecordFault::Truncated { need: 1, what: "reserved", have: 0 })
    } else if b[1] != 0 {
        Err(RecordFault::Reserved { byte: b[1] })
    } else if b.len() - 2 < 4 * dim {
        Err(
            RecordFault::Truncated {
                need: (4 * dim) as usize,
                what: "vector",
                have: (b.len() - 2) as usize,
            },
        )
    } else if !graph::all_finite(vector) {
        Err(RecordFault::NonFinite { index: graph::first_nonfinite(vector) as usize })
    } else if b.len() - at < 1 {
        Err(RecordFault::Truncated { need: 1, what: "level_count", have: 0 })
    } else if b[at] == 0 {
        Err(RecordFault::LevelCountZero)
    } else if b[at] > MAX_LEVEL_COUNT {
        Err(RecordFault::LevelCountAbove { count: b[at] })
    } else {
        match lists_of(b, at + 1, b[at] as nat) {
            Err(f) => Err(f),
            Ok((neighbors, end)) => Ok((RecordData { vector, neighbors }, end)),
        }
    }
}

/// Lists that decode end inside the bytes.
pub proof fn lemma_lists_of_bounds(b: Seq<u8>, at: int, n: nat)
    requires
        0 <= at <= b.len(),
    ensures
        lists_of(b, at, n) matches Ok((lists, end)) ==> lists.len() == n && at <= end
            <= b.len(),
    decreases n,
{
    if n > 0 {
        lemma_lists_of_bounds(b, at, (n - 1) as nat);
    }
}

/// A failure among the first lists is the failure of all.
proof fn lemma_lists_of_fails(b: Seq<u8>, at: int, n: nat, all: nat)
    requires
        n <= all,
        lists_of(b, at, n) is Err,
    ensures
        lists_of(b, at, all) == lists_of(b, at, n),
    decreases all - n,
{
    if n < all {
        lemma_lists_of_fails(b, at, n, (all - 1) as nat);
    }
}

/// Checks that `n` bytes are left from `at` on.
fn take(len: usize, at: usize, n: usize, what: &'static str) -> (r: Result<(), RecordFault>)
    requires
        at <= len,
    ensures
        r == (if len - at < n {
            Err::<(), RecordFault>(
                RecordFault::Truncated { need: n, what, have: (len - at) as usize },
            )
        } else {
            Ok(())
        }),
{
    if len - at < n {
        return Err(RecordFault::Truncated { need: n, what, have: len - at });
    }
    Ok(())
}

/// Reads `n` node ids from `at` on.
fn get_ids(b: &[u8], at: usize, n: usize) -> (list: Vec<NodeId>)
    requires
        at + 4 * n <= b.len(),
    ensures
        ids(list@) == bytes::words_at(b@, at as int, n as nat),
{
    let mut list: Vec<NodeId> = Vec::new();
    let mut i: usize = 0;
    assert(ids(list@) =~= bytes::words_at(b@, at as int, 0));
    while i < n
        invariant
            i <= n,
            at + 4 * n <= b.len(),
            list@.len() == i,
            ids(list@) == bytes::words_at(b@, at as int, i as nat),
        decreases n - i,
    {
        let ghost old_list = list@;
        list.push(NodeId(bytes::get_u32(b, at + 4 * i)));
        i = i + 1;
        proof {
            let w = bytes::words_at(b@, at as int, i as nat);
            assert forall|k: int| 0 <= k < i implies ids(list@)[k] == w[k] by {
                if k < i - 1 {
                    assert(ids(old_list)[k] == bytes::words_at(b@, at as int, (i - 1) as nat)[k]);
                }
            }
            assert(ids(list@) =~= w);
        }
    }
    list
}

/// Decodes the record at the start of `b`.
fn parse_record(b: &[u8], dim: u16) -> (r: Result<(NodeRecord, usize), RecordFault>)
    ensures
        match record_of(b@, dim) {
            Err(f) => r == Err::<(NodeRecord, usize), RecordFault>(f),
            Ok((data, used)) => r matches Ok((rec, n)) && rec@ == data && n == used && n
                <= b@.len(),
        },
{
    match take(b.len(), 0, 1, "flags") {
        Err(f) => {
            return Err(f);
        },
        Ok(_) => {},
    }
    if b[0] != 0 {
        return Err(RecordFault::Flags { byte: b[0] });
    }
    match take(b.len(), 1, 1, "reserved") {
        Err(f) => {
            return Err(f);
        },
        Ok(_) => {},
    }
    if b[1] != 0 {
        return Err(RecordFault::Reserved { byte: b[1] });
    }
    match take(b.len(), 2, 4 * dim as usize, "vector") {
        Err(f) => {
            return Err(f);
        },
        Ok(_) => {},
    }
    let vector: Vec<u32> = bytes::get_words(b, 2, dim as usize);
    match graph::find_nonfinite(&vector) {
        Some(index) => {
            return Err(RecordFault::NonFinite { index });
        },
        None => {},
    }
    let at: usize = 2 + 4 * dim as usize;
    match take(b.len(), at, 1, "level_count") {
        Err(f) => {
            return Err(f);
        },
        Ok(_) => {},
    }
    let level_count: u8 = b[at];
    if level_count == 0 {
        return Err(RecordFault::LevelCountZero);
    }
    if level_count as usize > MAX_LEVEL_COUNT {
        return Err(RecordFault::LevelCountAbove { count: level_count });
    }
    let mut neighbors: Vec<Vec<NodeId>> = Vec::new();
    let mut pos: usize = at + 1;
    let mut i: u8 = 0;
    assert(id_lists(neighbors@) =~= Seq::<Seq<u32>>::empty());
    while i < level_count
        invariant
            i <= level_count,
            pos <= b.len(),
            at + 1 <= b.len(),
            lists_of(b@, at + 1, i as nat) == Ok::<(Seq<Seq<u32>>, int), RecordFault>(
                (id_lists(neighbors@), pos as int),
            ),
            record_of(b@, dim) == (match lists_of(b@, at + 1, level_count as nat) {
                Err(f) => Err::<(RecordData, int), RecordFault>(f),
                Ok((lists, end)) => Ok((RecordData { vector: vector@, neighbors: lists }, end)),
            }),
        decreases level_count - i,
    {
        let ghost before = neighbors@;
        proof {
            if lists_of(b@, at + 1, (i + 1) as nat) is Err {
                lemma_lists_of_fails(b@, at + 1, (i + 1) as nat, level_count as nat);
            }
        }
        match take(b.len(), pos, 2, "neighbor_count") {
            Err(f) => {
                return Err(f);
            },
            Ok(_) => {},
        }
        let count: u16 = bytes::get_u16(b, pos);
        match take(b.len(), pos + 2, 4 * count as usize, "neighbors") {
            Err(f) => {
                return Err(f);
            },
            Ok(_) => {},
        }
        neighbors.push(get_ids(b, pos + 2, count as usize));
        assert(id_lists(neighbors@) =~= id_lists(before).push(
            bytes::words_at(b@, pos + 2, count as nat),
        ));
        pos = pos + 2 + 4 * count as usize;
        i = i + 1;
    }
    Ok((NodeRecord { vector, neighbors }, pos))
}

/// Decodes one node record from the front of `b` and says how many bytes it
/// took. `flags` and `reserved` must be 0, every component finite, and
/// `level_count` between 1 and [`MAX_LEVEL_COUNT`].
pub fn decode_node_record(b: &[u8], dim: u16) -> (r: Result<(NodeRecord, usize), HnswError>)
    ensures
        match record_of(b@, dim) {
            Err(fault) => r == Err::<(NodeRecord, usize), HnswError>(
                corrupt(CodecFault::Record { fault }),
            ),
            Ok((data, used)) => r matches Ok((rec, n)) && rec@ == data && n == used && n
                <= b@.len(),
        },
{
    match parse_record(b, dim) {
        Err(fault) => Err(corrupted(CodecFault::Record { fault })),
        Ok(x) => Ok(x),
    }
}

// ---------------------------------------------------------------------
// Graph data: what the write path and the read path both check.
// ---------------------------------------------------------------------

/// The largest number of neighbors on a level.
pub open spec fn degree_cap(h: SnapshotHeader, level: int) -> int {
    if level == 0 {
        h.m_max0 as int
    } else {
        h.m as int
    }
}

/// What is wrong with node `i` alone, if anything; the checks in this order.
pub open spec fn basics_fault(
    h: SnapshotHeader,
    i: int,
    vector: Seq<u32>,
    level_count: nat,
) -> Option<CodecFault> {
    let node = i as usize;
    if vector.len() != h.dim {
        Some(CodecFault::NodeVectorLen { node, len: vector.len() as usize, dim: h.dim })
    } else if !graph::all_finite(vector) {
        Some(
            CodecFault::NodeNonFinite { node, index: graph::first_nonfinite(vector) as usize },
        )
    } else if level_count == 0 {
        Some(CodecFault::NodeLevelCountZero { node })
    } else if level_count > MAX_LEVEL_COUNT {
        Some(CodecFault::NodeLevelCountAbove { node, count: level_count as usize })
    } else {
        None
    }
}

/// The first of `n` nodes that stands above `max_level`.
pub open spec fn above(levels: Seq<u8>, max_level: u8, n: nat) -> Option<int>
    decreases n,
{
    if n == 0 {
        None
    } else {
        match above(levels, max_level, (n - 1) as nat) {
            Some(i) => Some(i),
            None => if levels[n - 1] > max_level {
                Some(n - 1)
            } else {
                None
            },
        }
    }
}

/// What is wrong with the entry point and `max_level`, given every node's
/// top level, if anything; the checks in this order.
pub open spec fn entry_fault(h: SnapshotHeader, levels: Seq<u8>) -> Option<CodecFault> {
    if h.node_count == 0 && h.entry_point != EMPTY_GRAPH_ENTRY_POINT {
        Some(CodecFault::EmptyEntryPoint { entry_point: h.entry_point })
    } else if h.node_count == 0 && h.max_level != 0 {
        Some(CodecFault::EmptyMaxLevel { max_level: h.max_level })
    } else if h.node_count != 0 && h.entry_point >= h.node_count {
        Some(
            CodecFault::EntryPointRange {
                entry_point: h.entry_point,
                node_count: h.node_count,
            },
        )
    } else if h.node_count != 0 && h.max_level != levels[h.entry_point as int] {
        Some(
            CodecFault::MaxLevelMismatch {
                max_level: h.max_level,
                top: levels[h.entry_point as int],
            },
        )
    } else {
        match above(levels, h.max_level, levels.len()) {
            Some(i) => Some(
                CodecFault::TopAboveMax {
                    node: i as usize,
                    top: levels[i],
                    max_level: h.max_level,
                },
            ),
            None => None,
        }
    }
}

/// What is wrong with the edge `j` of a list, if anything; the checks in
/// this order.
pub open spec fn edge_fault(
    h: SnapshotHeader,
    levels: Seq<u8>,
    i: int,
    level: int,
    list: Seq<u32>,
    j: int,
) -> Option<CodecFault> {
    let n = list[j];
    if n == i {
        Some(CodecFault::SelfLoop { node: i as usize, level: level as usize })
    } else if j > 0 && list[j - 1] >= n {
        Some(
            CodecFault::NotAscending {
                node: i as usize,
                level: level as usize,
                prev: list[j - 1],
                next: n,
            },
        )
    } else if n >= h.node_count {
        Some(
            CodecFault::EndpointMissing {
                node: i as usize,
                level: level as usize,
                neighbor: n,
                node_count: h.node_count,
            },
        )
    } else if level > levels[n as int] {
        Some(
            CodecFault::EndpointLevel {
                node: i as usize,
                level: level as usize,
                neighbor: n,
                count: (levels[n as int] + 1) as usize,
            },
        )
    } else {
        None
    }
}

/// What is wrong with the first `n` edges of a list, if anything.
pub open spec fn edges_fault(
    h: SnapshotHeader,
    levels: Seq<u8>,
    i: int,
    level: int,
    list: Seq<u32>,
    n: nat,
) -> Option<CodecFault>
    decreases n,
{
    if n == 0 {
        None
    } else {
        match edges_fault(h, levels, i, level, list, (n - 1) as nat) {
            Some(f) => Some(f),
            None => edge_fault(h, levels, i, level, list, n - 1),
        }
    }
}

/// What is wrong with one list, if anything.
pub open spec fn list_fault(
    h: SnapshotHeader,
    levels: Seq<u8>,
    i: int,
    level: int,
    list: Seq<u32>,
) -> Option<CodecFault> {
    if list.len() > degree_cap(h, level) {
        Some(
            CodecFault::Degree {
                node: i as usize,
                level: level as usize,
                degree: list.len() as usize,
                cap: degree_cap(h, level) as usize,
            },
        )
    } else {
        edges_fault(h, levels, i, level, list, list.len())
    }
}

/// What is wrong with the lists of the first `n` levels of node `i`, if
/// anything.
pub open spec fn adjacency_fault(
    h: SnapshotHeader,
    levels: Seq<u8>,
    i: int,
    lists: Seq<Seq<u32>>,
    n: nat,
) -> Option<CodecFault>
    decreases n,
{
    if n == 0 {
        None
    } else {
        match adjacency_fault(h, levels, i, lists, (n - 1) as nat) {
            Some(f) => Some(f),
            None => list_fault(h, levels, i, n - 1, lists[n - 1]),
        }
    }
}

/// What is wrong with the first `n` nodes alone, if anything.
pub open spec fn all_basics_fault(
    h: SnapshotHeader,
    nodes: Seq<RecordData>,
    n: nat,
) -> Option<CodecFault>
    decreases n,
{
    if n == 0 {
        None
    } else {
        match all_basics_fault(h, nodes, (n - 1) as nat) {
            Some(f) => Some(f),
            None => basics_fault(h, n - 1, nodes[n - 1].vector, nodes[n - 1].neighbors.len()),
        }
    }
}

/// What is wrong with the edges of the first `n` nodes, if anything.
pub open spec fn all_adjacency_fault(
    h: SnapshotHeader,
    levels: Seq<u8>,
    nodes: Seq<RecordData>,
    n: nat,
) -> Option<CodecFault>
    decreases n,
{
    if n == 0 {
        None
    } else {
        match all_adjacency_fault(h, levels, nodes, (n - 1) as nat) {
            Some(f) => Some(f),
            None => adjacency_fault(
                h,
                levels,
                n - 1,
                nodes[n - 1].neighbors,
                nodes[n - 1].neighbors.len(),
            ),
        }
    }
}

/// A node's top level by its number of lists, in one byte.
pub open spec fn top_of(level_count: nat) -> u8 {
    if level_count == 0 {
        0
    } else {
        ((level_count - 1) % 256) as u8
    }
}

/// Every node's top level.
pub open spec fn tops(nodes: Seq<RecordData>) -> Seq<u8> {
    Seq::new(nodes.len(), |i: int| top_of(nodes[i].neighbors.len()))
}

/// What is wrong with a graph, if anything: the number of nodes, the nodes
/// alone, the entry point, the edges.
pub open spec fn graph_fault(h: SnapshotHeader, nodes: Seq<RecordData>) -> Option<CodecFault> {
    if h.node_count != nodes.len() {
        Some(CodecFault::NodeCount { declared: h.node_count, actual: nodes.len() as usize })
    } else if all_basics_fault(h, nodes, nodes.len()) is Some {
        all_basics_fault(h, nodes, nodes.len())
    } else if entry_fault(h, tops(nodes)) is Some {
        entry_fault(h, tops(nodes))
    } else {
        all_adjacency_fault(h, tops(nodes), nodes, nodes.len())
    }
}

/// Checks one node alone.
fn validate_record_basics(
    h: &SnapshotHeader,
    i: usize,
    vector: &[u32],
    level_count: usize,
) -> (r: Result<(), HnswError>)
    ensures
        match basics_fault(*h, i as int, vector@, level_count as nat) {
            Some(f) => r == Err::<(), HnswError>(corrupt(f)),
            None => r == Ok::<(), HnswError>(()),
        },
{
    if vector.len() != h.dim as usize {
        return Err(
            corrupted(CodecFault::NodeVectorLen { node: i, len: vector.len(), dim: h.dim }),
        );
    }
    match graph::find_nonfinite(vector) {
        Some(index) => {
            return Err(corrupted(CodecFault::NodeNonFinite { node: i, index }));
        },
        None => {},
    }
    if level_count == 0 {
        return Err(corrupted(CodecFault::NodeLevelCountZero { node: i }));
    }
    if level_count > MAX_LEVEL_COUNT {
        return Err(corrupted(CodecFault::NodeLevelCountAbove { node: i, count: level_count }));
    }
    Ok(())
}

/// A node found above `max_level` among the first is found among all.
proof fn lemma_above_stays(levels: Seq<u8>, max_level: u8, n: nat, all: nat)
    requires
        n <= all,
        above(levels, max_level, n) is Some,
    ensures
        above(levels, max_level, all) == above(levels, max_level, n),
    decreases all - n,
{
    if n < all {
        lemma_above_stays(levels, max_level, n, (all - 1) as nat);
    }
}

/// Checks the entry point and `max_level` against every node's top level: an
/// empty graph has neither; otherwise the entry point is a node, `max_level`
/// is its top level, and no node stands higher.
fn validate_entry_and_max_level(h: &SnapshotHeader, levels: &[u8]) -> (r: Result<(), HnswError>)
    requires
        h.node_count == levels@.len(),
    ensures
        match entry_fault(*h, levels@) {
            Some(f) => r == Err::<(), HnswError>(corrupt(f)),
            None => r == Ok::<(), HnswError>(()),
        },
{
    if h.node_count == 0 {
        if h.entry_point != EMPTY_GRAPH_ENTRY_POINT {
            return Err(
                corrupted(CodecFault::EmptyEntryPoint { entry_point: h.entry_point }),
            );
        }
        if h.max_level != 0 {
            return Err(corrupted(CodecFault::EmptyMaxLevel { max_level: h.max_level }));
        }
    } else {
        if h.entry_point >= h.node_count {
            return Err(
                corrupted(
                    CodecFault::EntryPointRange {
                        entry_point: h.entry_point,
                        node_count: h.node_count,
                    },
                ),
            );
        }
        let top: u8 = levels[h.entry_point as usize];
        if h.max_level != top {
            return Err(
                corrupted(CodecFault::MaxLevelMismatch { max_level: h.max_level, top }),
            );
        }
    }
    let mut i: usize = 0;
    while i < levels.len()
        invariant
            i <= levels@.len(),
            above(levels@, h.max_level, i as nat) is None,
            entry_fault(*h, levels@) == (match above(levels@, h.max_level, levels@.len()) {
                Some(k) => Some(
                    CodecFault::TopAboveMax {
                        node: k as usize,
                        top: levels@[k],
                        max_level: h.max_level,
                    },
                ),
                None => None,
            }),
        decreases levels@.len() - i,
    {
        if levels[i] > h.max_level {
            proof {
                lemma_above_stays(levels@, h.max_level, (i + 1) as nat, levels@.len());
            }
            return Err(
                corrupted(
                    CodecFault::TopAboveMax { node: i, top: levels[i], max_level: h.max_level },
                ),
            );
        }
        i = i + 1;
    }
    Ok(())
}

/// A fault among the first edges is the fault of all.
proof fn lemma_edges_fault_stays(
    h: SnapshotHeader,
    levels: Seq<u8>,
    i: int,
    level: int,
    list: Seq<u32>,
    n: nat,
    all: nat,
)
    requires
        n <= all,
        edges_fault(h, levels, i, level, list, n) is Some,
    ensures
        edges_fault(h, levels, i, level, list, all) == edges_fault(h, levels, i, level, list, n),
    decreases all - n,
{
    if n < all {
        lemma_edges_fault_stays(h, levels, i, level, list, n, (all - 1) as nat);
    }
}

/// A fault among the first levels is the fault of all.
proof fn lemma_adjacency_fault_stays(
    h: SnapshotHeader,
    levels: Seq<u8>,
    i: int,
    lists: Seq<Seq<u32>>,
    n: nat,
    all: nat,
)
    requires
        n <= all,
        adjacency_fault(h, levels, i, lists, n) is Some,
    ensures
        adjacency_fault(h, levels, i, lists, all) == adjacency_fault(h, levels, i, lists, n),
    decreases all - n,
{
    if n < all {
        lemma_adjacency_fault_stays(h, levels, i, lists, n, (all - 1) as nat);
    }
}

/// Checks one neighbor list of node `i`.
fn validate_list(h: &SnapshotHeader, levels: &[u8], i: usize, level: usize, list: &Vec<NodeId>)
    -> (r: Result<(), HnswError>)
    requires
        h.node_count == levels@.len(),
    ensures
        match list_fault(*h, levels@, i as int, level as int, ids(list@)) {
            Some(f) => r == Err::<(), HnswError>(corrupt(f)),
            None => r == Ok::<(), HnswError>(()),
        },
{
    let ghost w = ids(list@);
    let cap: usize = if level == 0 {
        h.m_max0 as usize
    } else {
        h.m as usize
    };
    if list.len() > cap {
        return Err(
            corrupted(CodecFault::Degree { node: i, level, degree: list.len(), cap }),
        );
    }
    let mut j: usize = 0;
    while j < list.len()
        invariant
            j <= list@.len(),
            h.node_count == levels@.len(),
            w == ids(list@),
            edges_fault(*h, levels@, i as int, level as int, w, j as nat) is None,
            list_fault(*h, levels@, i as int, level as int, w) == edges_fault(
                *h,
                levels@,
                i as int,
                level as int,
                w,
                w.len(),
            ),
        decreases list@.len() - j,
    {
        proof {
            if edge_fault(*h, levels@, i as int, level as int, w, j as int) is Some {
                lemma_edges_fault_stays(
                    *h,
                    levels@,
                    i as int,
                    level as int,
                    w,
                    (j + 1) as nat,
                    w.len(),
                );
            }
            assert(w[j as int] == list@[j as int].0);
        }
        let n: u32 = list[j].0;
        if n as usize == i {
            return Err(corrupted(CodecFault::SelfLoop { node: i, level }));
        }
        if j > 0 && list[j - 1].0 >= n {
            assert(w[j - 1] == list@[j - 1].0);
            return Err(
                corrupted(
                    CodecFault::NotAscending { node: i, level, prev: list[j - 1].0, next: n },
                ),
            );
        }
        if n >= h.node_count {
            return Err(
                corrupted(
                    CodecFault::EndpointMissing {
                        node: i,
                        level,
                        neighbor: n,
                        node_count: h.node_count,
                    },
                ),
            );
        }
        let top: u8 = levels[n as usize];
        if level > top as usize {
            return Err(
                corrupted(
                    CodecFault::EndpointLevel {
                        node: i,
                        level,
                        neighbor: n,
                        count: top as usize + 1,
                    },
                ),
            );
        }
        j = j + 1;
    }
    Ok(())
}

/// Checks the neighbor lists of node `i`: no list over its cap, none with
/// its owner, all strictly ascending, every neighbor a node that has the
/// edge's level.
fn validate_adjacency(
    h: &SnapshotHeader,
    levels: &[u8],
    i: usize,
    neighbors: &[Vec<NodeId>],
) -> (r: Result<(), HnswError>)
    requires
        h.node_count == levels@.len(),
    ensures
        match adjacency_fault(
            *h,
            levels@,
            i as int,
            id_lists(neighbors@),
            neighbors@.len(),
        ) {
            Some(f) => r == Err::<(), HnswError>(corrupt(f)),
            None => r == Ok::<(), HnswError>(()),
        },
{
    let ghost lists = id_lists(neighbors@);
    let mut level: usize = 0;
    while level < neighbors.len()
        invariant
            level <= neighbors@.len(),
            h.node_count == levels@.len(),
            lists == id_lists(neighbors@),
            adjacency_fault(*h, levels@, i as int, lists, level as nat) is None,
        decreases neighbors@.len() - level,
    {
        assert(lists[level as int] == ids(neighbors@[level as int]@));
        match validate_list(h, levels, i, level, &neighbors[level]) {
            Err(e) => {
                proof {
                    lemma_adjacency_fault_stays(
                        *h,
                        levels@,
                        i as int,
                        lists,
                        (level + 1) as nat,
                        neighbors@.len(),
                    );
                }
                return Err(e);
            },
            Ok(_) => {},
        }
        level = level + 1;
    }
    Ok(())
}

/// A fault among the first nodes is the fault of all.
proof fn lemma_all_basics_fault_stays(
    h: SnapshotHeader,
    nodes: Seq<RecordData>,
    n: nat,
    all: nat,
)
    requires
        n <= all,
        all_basics_fault(h, nodes, n) is Some,
    ensures
        all_basics_fault(h, nodes, all) == all_basics_fault(h, nodes, n),
    decreases all - n,
{
    if n < all {
        lemma_all_basics_fault_stays(h, nodes, n, (all - 1) as nat);
    }
}

/// A fault among the first nodes is the fault of all.
proof fn lemma_all_adjacency_fault_stays(
    h: SnapshotHeader,
    levels: Seq<u8>,
    nodes: Seq<RecordData>,
    n: nat,
    all: nat,
)
    requires
        n <= all,
        all_adjacency_fault(h, levels, nodes, n) is Some,
    ensures
        all_adjacency_fault(h, levels, nodes, all) == all_adjacency_fault(h, levels, nodes, n),
    decreases all - n,
{
    if n < all {
        lemma_all_adjacency_fault_stays(h, levels, nodes, n, (all - 1) as nat);
    }
}

/// Every node's top level.
fn summarize(nodes: &[NodeRecord]) -> (levels: Vec<u8>)
    ensures
        levels@ == tops(records(nodes@)),
{
    let mut levels: Vec<u8> = Vec::new();
    let mut i: usize = 0;
    while i < nodes.len()
        invariant
            i <= nodes@.len(),
            levels@ == tops(records(nodes@)).take(i as int),
        decreases nodes@.len() - i,
    {
        let n: usize = nodes[i].neighbors.len();
        let top: u8 = if n == 0 {
            0
        } else {
            ((n - 1) % 256) as u8
        };
        levels.push(top);
        proof {
            let all = tops(records(nodes@));
            assert(records(nodes@)[i as int].neighbors.len() == n);
            assert(all[i as int] == top);
            assert(all.take(i as int).push(top) =~= all.take(i + 1));
        }
        i = i + 1;
    }
    assert(tops(records(nodes@)).take(nodes@.len() as int) =~= tops(records(nodes@)));
    levels
}

/// Checks a decoded graph.
fn validate_graph_data(h: &SnapshotHeader, nodes: &[NodeRecord]) -> (r: Result<(), HnswError>)
    ensures
        match graph_fault(*h, records(nodes@)) {
            Some(f) => r == Err::<(), HnswError>(corrupt(f)),
            None => r == Ok::<(), HnswError>(()),
        },
{
    let ghost data = records(nodes@);
    if h.node_count as usize != nodes.len() {
        return Err(
            corrupted(CodecFault::NodeCount { declared: h.node_count, actual: nodes.len() }),
        );
    }
    let mut i: usize = 0;
    while i < nodes.len()
        invariant
            i <= nodes@.len(),
            data == records(nodes@),
            h.node_count == nodes@.len(),
            all_basics_fault(*h, data, i as nat) is None,
        decreases nodes@.len() - i,
    {
        assert(data[i as int] == nodes@[i as int]@);
        match validate_record_basics(h, i, &nodes[i].vector, nodes[i].neighbors.len()) {
            Err(e) => {
                proof {
                    lemma_all_basics_fault_stays(*h, data, (i + 1) as nat, data.len());
                }
                return Err(e);
            },
            Ok(_) => {},
        }
        i = i + 1;
    }
    let levels: Vec<u8> = summarize(nodes);
    match validate_entry_and_max_level(h, &levels) {
        Err(e) => {
            return Err(e);
        },
        Ok(_) => {},
    }
    let mut k: usize = 0;
    while k < nodes.len()
        invariant
            k <= nodes@.len(),
            data == records(nodes@),
            levels@ == tops(data),
            h.node_count == nodes@.len(),
            all_adjacency_fault(*h, levels@, data, k as nat) is None,
            graph_fault(*h, data) == all_adjacency_fault(*h, levels@, data, data.len()),
        decreases nodes@.len() - k,
    {
        assert(data[k as int] == nodes@[k as int]@);
        match validate_adjacency(h, &levels, k, &nodes[k].neighbors) {
            Err(e) => {
                proof {
                    lemma_all_adjacency_fault_stays(
                        *h,
                        levels@,
                        data,
                        (k + 1) as nat,
                        data.len(),
                    );
                }
                return Err(e);
            },
            Ok(_) => {},
        }
        k = k + 1;
    }
    Ok(())
}

// ---------------------------------------------------------------------
// The write path.
// ---------------------------------------------------------------------

/// What is wrong with a header and a level summary, if anything; the checks
/// in this order.
pub open spec fn start_fault(h: SnapshotHeader, levels: Seq<u8>) -> Option<CodecFault> {
    if header_fault(h) is Some {
        header_fault(h)
    } else if h.node_count != levels.len() {
        Some(CodecFault::NodeCount { declared: h.node_count, actual: levels.len() as usize })
    } else {
        entry_fault(h, levels)
    }
}

/// What is wrong with `data` as the record of node `i`, if anything; the
/// checks in this order.
pub open spec fn push_fault(
    h: SnapshotHeader,
    levels: Seq<u8>,
    i: int,
    data: RecordData,
) -> Option<CodecFault> {
    if i == h.node_count {
        Some(CodecFault::TooManyRecords { declared: h.node_count })
    } else if data.neighbors.len() != levels[i] + 1 {
        Some(
            CodecFault::LevelsDisagree {
                node: i as usize,
                count: data.neighbors.len() as usize,
                summary: (levels[i] + 1) as usize,
            },
        )
    } else if basics_fault(h, i, data.vector, data.neighbors.len()) is Some {
        basics_fault(h, i, data.vector, data.neighbors.len())
    } else {
        adjacency_fault(h, levels, i, data.neighbors, data.neighbors.len())
    }
}

/// What is wrong with the first `n` records, if anything.
pub open spec fn pushes_fault(
    h: SnapshotHeader,
    levels: Seq<u8>,
    nodes: Seq<RecordData>,
    n: nat,
) -> Option<CodecFault>
    decreases n,
{
    if n == 0 {
        None
    } else {
        match pushes_fault(h, levels, nodes, (n - 1) as nat) {
            Some(f) => Some(f),
            None => push_fault(h, levels, n - 1, nodes[n - 1]),
        }
    }
}

/// What [`encode_snapshot_body`] answers.
pub open spec fn encoded(h: SnapshotHeader, nodes: Seq<RecordData>) -> Result<Seq<u8>, HnswError> {
    if start_fault(h, tops(nodes)) is Some {
        Err(corrupt(start_fault(h, tops(nodes))->0))
    } else if pushes_fault(h, tops(nodes), nodes, nodes.len()) is Some {
        Err(corrupt(pushes_fault(h, tops(nodes), nodes, nodes.len())->0))
    } else {
        Ok(body_bytes(h, nodes))
    }
}

/// Encodes a snapshot body record by record, and its checksum with it.
///
/// The bytes gather in a buffer that [`BodyEncoder::drain`] empties, so that
/// a large body can be written out as it is made. The checks are those of
/// the read path: what it would refuse is refused here.
pub struct BodyEncoder {
    inner: Vec<u8>,
    crc: u32,
    header: SnapshotHeader,
    levels: Vec<u8>,
    written: u32,
    all: Ghost<Seq<u8>>,
}

impl BodyEncoder {
    /// The header.
    pub closed spec fn spec_header(&self) -> SnapshotHeader {
        self.header
    }

    /// The level summary.
    pub closed spec fn spec_levels(&self) -> Seq<u8> {
        self.levels@
    }

    /// How many records have been pushed.
    pub closed spec fn spec_written(&self) -> u32 {
        self.written
    }

    /// Every byte encoded so far.
    pub closed spec fn body(&self) -> Seq<u8> {
        self.all@
    }

    /// The bytes that have not been drained.
    pub closed spec fn pending(&self) -> Seq<u8> {
        self.inner@
    }

    /// The checksum is that of the bytes, and no more records have been
    /// pushed than there are nodes.
    pub closed spec fn well_formed(&self) -> bool {
        &&& self.crc == crc::crc32_of(self.all@)
        &&& self.header.node_count == self.levels@.len()
        &&& self.written <= self.header.node_count
    }

    /// Checks the header and the level summary (`levels[i]` is the top level
    /// of node `i`) and encodes the header behind the bytes of `inner`.
    pub fn new(header: SnapshotHeader, levels: Vec<u8>, inner: Vec<u8>) -> (r: Result<
        Self,
        HnswError,
    >)
        ensures
            match start_fault(header, levels@) {
                Some(f) => r == Err::<Self, HnswError>(corrupt(f)),
                None => r matches Ok(enc) && {
                    &&& enc.well_formed()
                    &&& enc.spec_header() == header
                    &&& enc.spec_levels() == levels@
                    &&& enc.spec_written() == 0
                    &&& enc.body() == header_bytes(header)
                    &&& enc.pending() == inner@ + header_bytes(header)
                },
            },
    {
        match header.validate_construction_params() {
            Err(e) => {
                return Err(e);
            },
            Ok(_) => {},
        }
        if header.node_count as usize != levels.len() {
            return Err(
                corrupted(
                    CodecFault::NodeCount { declared: header.node_count, actual: levels.len() },
                ),
            );
        }
        match validate_entry_and_max_level(&header, &levels) {
            Err(e) => {
                return Err(e);
            },
            Ok(_) => {},
        }
        let bytes_of_header: [u8; SNAPSHOT_HEADER_SIZE] = header.encode();
        let mut inner: Vec<u8> = inner;
        bytes::append_bytes(&mut inner, &bytes_of_header);
        let crc: u32 = crc::crc32(&bytes_of_header);
        Ok(
            BodyEncoder {
                inner,
                crc,
                header,
                levels,
                written: 0,
                all: Ghost(header_bytes(header)),
            },
        )
    }

    /// Checks and encodes the record of the next node: the i-th record pushed
    /// is node i.
    pub fn push_record(&mut self, vector: &[u32], neighbors: &[Vec<NodeId>]) -> (r: Result<
        (),
        HnswError,
    >)
        requires
            old(self).well_formed(),
        ensures
            ({
                let data = RecordData { vector: vector@, neighbors: id_lists(neighbors@) };
                let i = old(self).spec_written() as int;
                match push_fault(old(self).spec_header(), old(self).spec_levels(), i, data) {
                    Some(f) => {
                        &&& r == Err::<(), HnswError>(corrupt(f))
                        &&& *final(self) == *old(self)
                    },
                    None => {
                        &&& r == Ok::<(), HnswError>(())
                        &&& final(self).spec_written() == i + 1
                        &&& final(self).body() == old(self).body() + record_bytes(data)
                        &&& final(self).pending() == old(self).pending() + record_bytes(data)
                    },
                }
            }),
            final(self).well_formed(),
            final(self).spec_header() == old(self).spec_header(),
            final(self).spec_levels() == old(self).spec_levels(),
    {
        let ghost data = RecordData { vector: vector@, neighbors: id_lists(neighbors@) };
        if self.written == self.header.node_count {
            return Err(
                corrupted(CodecFault::TooManyRecords { declared: self.header.node_count }),
            );
        }
        let i: usize = self.written as usize;
        let summary: usize = self.levels[i] as usize + 1;
        if neighbors.len() != summary {
            return Err(
                corrupted(
                    CodecFault::LevelsDisagree { node: i, count: neighbors.len(), summary },
                ),
            );
        }
        match validate_record_basics(&self.header, i, vector, neighbors.len()) {
            Err(e) => {
                return Err(e);
            },
            Ok(_) => {},
        }
        match validate_adjacency(&self.header, &self.levels, i, neighbors) {
            Err(e) => {
                return Err(e);
            },
            Ok(_) => {},
        }
        proof {
            lemma_legal_record_encodes(self.header, self.levels@, i as int, data);
        }
        let mut scratch: Vec<u8> = Vec::new();
        match encode_node_record(&mut scratch, self.header.dim, vector, neighbors) {
            Err(e) => {
                return Err(e);
            },
            Ok(_) => {},
        }
        assert(scratch@ =~= record_bytes(data));
        self.crc = crc::crc32_resume(self.crc, &scratch);
        bytes::append_bytes(&mut self.inner, &scratch);
        self.written = self.written + 1;
        self.all = Ghost(self.all@ + record_bytes(data));
        Ok(())
    }

    /// How many records have been pushed.
    pub fn written(&self) -> (n: u32)
        ensures
            n == self.spec_written(),
    {
        self.written
    }

    /// Takes the bytes that have been encoded since the last call.
    pub fn drain(&mut self) -> (b: Vec<u8>)
        requires
            old(self).well_formed(),
        ensures
            b@ == old(self).pending(),
            final(self).pending() == Seq::<u8>::empty(),
            final(self).well_formed(),
            final(self).spec_header() == old(self).spec_header(),
            final(self).spec_levels() == old(self).spec_levels(),
            final(self).spec_written() == old(self).spec_written(),
            final(self).body() == old(self).body(),
    {
        let mut b: Vec<u8> = Vec::new();
        b.append(&mut self.inner);
        assert(b@ =~= old(self).inner@);
        b
    }

    /// Checks the number of records and gives the checksum of the whole body
    /// and the bytes that have not been drained.
    pub fn finish(self) -> (r: Result<(u32, Vec<u8>), HnswError>)
        requires
            self.well_formed(),
        ensures
            if self.spec_written() != self.spec_header().node_count {
                r == Err::<(u32, Vec<u8>), HnswError>(
                    corrupt(
                        CodecFault::NodeCount {
                            declared: self.spec_header().node_count,
                            actual: self.spec_written() as usize,
                        },
                    ),
                )
            } else {
                r matches Ok((crc, rest)) && crc == crc::crc32_of(self.body()) && rest@
                    == self.pending()
            },
    {
        if self.written != self.header.node_count {
            return Err(
                corrupted(
                    CodecFault::NodeCount {
                        declared: self.header.node_count,
                        actual: self.written as usize,
                    },
                ),
            );
        }
        Ok((self.crc, self.inner))
    }
}

/// A record that passes the checks of the graph can be encoded.
pub proof fn lemma_legal_record_encodes(
    h: SnapshotHeader,
    levels: Seq<u8>,
    i: int,
    data: RecordData,
)
    requires
        basics_fault(h, i, data.vector, data.neighbors.len()) is None,
        adjacency_fault(h, levels, i, data.neighbors, data.neighbors.len()) is None,
    ensures
        record_fault(h.dim, data) is None,
        forall|l: int|
            0 <= l < data.neighbors.len() ==> (#[trigger] data.neighbors[l]).len() <= degree_cap(
                h,
                l,
            ),
{
    lemma_degrees(h, levels, i, data.neighbors, data.neighbors.len());
    lemma_no_wide_level(data.neighbors, data.neighbors.len());
}

/// Lists without fault are within their caps.
proof fn lemma_degrees(
    h: SnapshotHeader,
    levels: Seq<u8>,
    i: int,
    lists: Seq<Seq<u32>>,
    n: nat,
)
    requires
        n <= lists.len(),
        adjacency_fault(h, levels, i, lists, n) is None,
    ensures
        forall|l: int| 0 <= l < n ==> (#[trigger] lists[l]).len() <= degree_cap(h, l),
    decreases n,
{
    if n > 0 {
        lemma_degrees(h, levels, i, lists, (n - 1) as nat);
    }
}

/// A fault among the first records is the fault of all.
pub proof fn lemma_pushes_fault_stays(
    h: SnapshotHeader,
    levels: Seq<u8>,
    nodes: Seq<RecordData>,
    n: nat,
    all: nat,
)
    requires
        n <= all,
        pushes_fault(h, levels, nodes, n) is Some,
    ensures
        pushes_fault(h, levels, nodes, all) == pushes_fault(h, levels, nodes, n),
    decreases all - n,
{
    if n < all {
        lemma_pushes_fault_stays(h, levels, nodes, n, (all - 1) as nat);
    }
}

/// Encodes a snapshot body: the header and the node records. A graph that the
/// read path would refuse is refused.
pub fn encode_snapshot_body(header: &SnapshotHeader, nodes: &[NodeRecord]) -> (r: Result<
    Vec<u8>,
    HnswError,
>)
    ensures
        match encoded(*header, records(nodes@)) {
            Ok(b) => r matches Ok(v) && v@ == b,
            Err(e) => r == Err::<Vec<u8>, HnswError>(e),
        },
{
    let ghost data = records(nodes@);
    let levels: Vec<u8> = summarize(nodes);
    let mut enc: BodyEncoder = match BodyEncoder::new(*header, levels, Vec::new()) {
        Err(e) => {
            return Err(e);
        },
        Ok(enc) => enc,
    };
    let mut i: usize = 0;
    assert(enc.pending() =~= header_bytes(*header) + records_bytes(data.take(0)));
    while i < nodes.len()
        invariant
            i <= nodes@.len(),
            data == records(nodes@),
            enc.well_formed(),
            enc.spec_header() == *header,
            enc.spec_levels() == tops(data),
            enc.spec_written() == i,
            header.node_count == nodes@.len(),
            enc.pending() == header_bytes(*header) + records_bytes(data.take(i as int)),
            start_fault(*header, tops(data)) is None,
            pushes_fault(*header, tops(data), data, i as nat) is None,
        decreases nodes@.len() - i,
    {
        assert(data[i as int] == nodes@[i as int]@);
        match enc.push_record(&nodes[i].vector, &nodes[i].neighbors) {
            Err(e) => {
                proof {
                    lemma_pushes_fault_stays(
                        *header,
                        tops(data),
                        data,
                        (i + 1) as nat,
                        data.len(),
                    );
                }
                return Err(e);
            },
            Ok(_) => {},
        }
        proof {
            assert(data.take(i + 1).drop_last() =~= data.take(i as int));
            assert(data.take(i + 1).last() == data[i as int]);
        }
        i = i + 1;
        assert(enc.pending() =~= header_bytes(*header) + records_bytes(data.take(i as int)));
    }
    assert(data.take(nodes@.len() as int) =~= data);
    match enc.finish() {
        Err(e) => Err(e),
        Ok((_, body)) => Ok(body),
    }
}

// ---------------------------------------------------------------------
// The read path.
// ---------------------------------------------------------------------

/// A decoded and validated snapshot body: record `i` is node `i`.
#[derive(Debug, Clone, PartialEq)]
pub struct SnapshotFileData {
    /// The header.
    pub header: SnapshotHeader,
    /// The node records in order.
    pub nodes: Vec<NodeRecord>,
}

/// Bytes of the smallest record: no neighbors, one level.
pub open spec fn min_record_size(dim: u16) -> int {
    2 + 4 * dim + 1 + 2
}

/// The `n` records that start at `at`, and where they end.
pub open spec fn records_of(b: Seq<u8>, at: int, n: nat, dim: u16) -> Result<
    (Seq<RecordData>, int),
    HnswError,
>
    decreases n,
{
    if n == 0 {
        Ok((Seq::empty(), at))
    } else {
        match records_of(b, at, (n - 1) as nat, dim) {
            Err(e) => Err(e),
            Ok((nodes, p)) => match record_of(b.subrange(p, b.len() as int), dim) {
                Err(fault) => Err(
                    corrupt(CodecFault::RecordAt { index: (n - 1) as u32, fault }),
                ),
                Ok((data, used)) => Ok((nodes.push(data), p + used)),
            },
        }
    }
}

/// What [`decode_snapshot_body`] answers; the checks in this order.
pub open spec fn body_of(b: Seq<u8>) -> Result<(SnapshotHeader, Seq<RecordData>), HnswError> {
    match header_of(b) {
        Err(e) => Err(e),
        Ok(h) => {
            let rest = b.len() - SNAPSHOT_HEADER_SIZE;
            let min = min_record_size(h.dim);
            if h.node_count > rest / min {
                Err(
                    corrupt(
                        CodecFault::NodeCountOverBody {
                            declared: h.node_count,
                            fit: (rest / min) as usize,
                            bytes: rest as usize,
                            min: min as usize,
                        },
                    ),
                )
            } else {
                match records_of(b, SNAPSHOT_HEADER_SIZE as int, h.node_count as nat, h.dim) {
                    Err(e) => Err(e),
                    Ok((nodes, end)) => if end != b.len() {
                        Err(
                            corrupt(
                                CodecFault::Trailing {
                                    bytes: (b.len() - end) as usize,
                                    node_count: h.node_count,
                                },
                            ),
                        )
                    } else {
                        match graph_fault(h, nodes) {
                            Some(f) => Err(corrupt(f)),
                            None => Ok((h, nodes)),
                        }
                    },
                }
            }
        },
    }
}

/// A failure among the first records is the failure of all.
proof fn lemma_records_of_fails(b: Seq<u8>, at: int, n: nat, all: nat, dim: u16)
    requires
        n <= all,
        records_of(b, at, n, dim) is Err,
    ensures
        records_of(b, at, all, dim) == records_of(b, at, n, dim),
    decreases all - n,
{
    if n < all {
        lemma_records_of_fails(b, at, n, (all - 1) as nat, dim);
    }
}

/// Decodes a snapshot body and validates it.
///
/// The header's magic, version and construction parameters; a record count
/// that the body can hold, before anything is allocated for it; every record
/// by itself; no byte behind the last; the entry point and `max_level`; and
/// the edges.
pub fn decode_snapshot_body(body: &[u8]) -> (r: Result<SnapshotFileData, HnswError>)
    ensures
        match body_of(body@) {
            Ok((h, nodes)) => r matches Ok(d) && d.header == h && records(d.nodes@) == nodes,
            Err(e) => r == Err::<SnapshotFileData, HnswError>(e),
        },
{
    let header: SnapshotHeader = match SnapshotHeader::decode(body) {
        Err(e) => {
            return Err(e);
        },
        Ok(h) => h,
    };
    let rest: usize = body.len() - SNAPSHOT_HEADER_SIZE;
    let min: usize = 2 + 4 * header.dim as usize + 1 + 2;
    if header.node_count as usize > rest / min {
        return Err(
            corrupted(
                CodecFault::NodeCountOverBody {
                    declared: header.node_count,
                    fit: rest / min,
                    bytes: rest,
                    min,
                },
            ),
        );
    }
    let mut nodes: Vec<NodeRecord> = Vec::new();
    let mut pos: usize = SNAPSHOT_HEADER_SIZE;
    let mut i: u32 = 0;
    assert(records(nodes@) =~= Seq::<RecordData>::empty());
    while i < header.node_count
        invariant
            i <= header.node_count,
            pos <= body.len(),
            records_of(body@, SNAPSHOT_HEADER_SIZE as int, i as nat, header.dim) == Ok::<
                (Seq<RecordData>, int),
                HnswError,
            >((records(nodes@), pos as int)),
            header_of(body@) == Ok::<SnapshotHeader, HnswError>(header),
            header.node_count <= (body@.len() - SNAPSHOT_HEADER_SIZE) / min_record_size(
                header.dim,
            ),
        decreases header.node_count - i,
    {
        let ghost before = nodes@;
        let tail: &[u8] = slice_subrange(body, pos, body.len());
        match parse_record(tail, header.dim) {
            Err(fault) => {
                proof {
                    lemma_records_of_fails(
                        body@,
                        SNAPSHOT_HEADER_SIZE as int,
                        (i + 1) as nat,
                        header.node_count as nat,
                        header.dim,
                    );
                }
                return Err(corrupted(CodecFault::RecordAt { index: i, fault }));
            },
            Ok((rec, used)) => {
                nodes.push(rec);
                assert(records(nodes@) =~= records(before).push(rec@));
                pos = pos + used;
            },
        }
        i = i + 1;
    }
    if pos != body.len() {
        return Err(
            corrupted(
                CodecFault::Trailing { bytes: body.len() - pos, node_count: header.node_count },
            ),
        );
    }
    match validate_graph_data(&header, &nodes) {
        Err(e) => Err(e),
        Ok(_) => Ok(SnapshotFileData { header, nodes }),
    }
}

// ---------------------------------------------------------------------
// The checksum prefix and the sizes.
// ---------------------------------------------------------------------

/// The bytes of a snapshot with this body.
pub open spec fn wrapped(body: Seq<u8>) -> Seq<u8> {
    bytes::u32_le(crc::crc32_of(body)) + body
}

/// What [`unwrap_crc32`] answers.
pub open spec fn unwrapped(b: Seq<u8>) -> Result<Seq<u8>, HnswError> {
    let body = b.subrange(4, b.len() as int);
    let stored = bytes::le32(b, 0);
    let computed = crc::crc32_of(body);
    if b.len() < CRC32_SIZE {
        Err(corrupt(CodecFault::CrcShort { len: b.len() as usize }))
    } else if stored != computed {
        Err(HnswError::ChecksumMismatch { stored, computed })
    } else {
        Ok(body)
    }
}

/// Puts the checksum in front of a body.
pub fn wrap_crc32(body: &[u8]) -> (out: Vec<u8>)
    ensures
        out@ == wrapped(body@),
{
    let mut out: Vec<u8> = Vec::new();
    bytes::push_u32(&mut out, crc::crc32(body));
    bytes::append_bytes(&mut out, body);
    assert(out@ =~= wrapped(body@));
    out
}

/// Verifies the checksum in front of a body and gives the body.
pub fn unwrap_crc32<'a>(b: &'a [u8]) -> (r: Result<&'a [u8], HnswError>)
    ensures
        match unwrapped(b@) {
            Ok(body) => r matches Ok(s) && s@ == body,
            Err(e) => r == Err::<&[u8], HnswError>(e),
        },
{
    if b.len() < CRC32_SIZE {
        return Err(corrupted(CodecFault::CrcShort { len: b.len() }));
    }
    let body: &'a [u8] = slice_subrange(b, CRC32_SIZE, b.len());
    let stored: u32 = bytes::get_u32(b, 0);
    let computed: u32 = crc::crc32(body);
    if stored != computed {
        return Err(HnswError::ChecksumMismatch { stored, computed });
    }
    Ok(body)
}

/// Bytes of the largest record: every level that a record can have, each with
/// as many neighbors as its cap allows.
pub open spec fn max_record_size(h: SnapshotHeader) -> int {
    2 + 4 * h.dim + 1 + (2 + 4 * h.m_max0) + 63 * (2 + 4 * h.m)
}

/// Bytes of the largest body with this header.
pub open spec fn spec_max_body_size(h: SnapshotHeader) -> int {
    SNAPSHOT_HEADER_SIZE + h.node_count * max_record_size(h)
}

/// Bytes that loading a node can take at most: its vector twice, its level,
/// the headers of its lists and of every level's list twice, and the ids of
/// full lists twice.
pub open spec fn node_footprint(h: SnapshotHeader) -> int {
    2 * (4 * h.dim) + 1 + 24 + 48 + 24 + 2 * 24 * 64 + 2 * (4 * h.m_max0 + 252 * h.m)
}

/// The largest legal body size, header included, for a validated header.
/// Encoding makes exact sizes and decoding refuses trailing bytes, so a
/// larger file can be refused without being read.
pub fn max_body_size(header: &SnapshotHeader) -> (r: u64)
    ensures
        r == spec_max_body_size(*header),
        r <= 0x0200_0000_0000_0000,
{
    let per: u64 = 2 + 4 * header.dim as u64 + 1 + (2 + 4 * header.m_max0 as u64) + 63 * (2 + 4
        * header.m as u64);
    let n: u64 = header.node_count as u64;
    proof {
        assert(0 <= n * per <= 0xffff_ffff * 0x1_1fff_ff) by (nonlinear_arith)
            requires
                n <= 0xffff_ffff,
                per <= 0x1_1fff_ff,
        ;
    }
    25 + n * per
}

/// The largest legal size of the records alone.
pub fn max_records_size(header: &SnapshotHeader) -> (r: u64)
    ensures
        r == header.node_count * max_record_size(*header),
        r <= 0x0200_0000_0000_0000,
{
    proof {
        assert(0 <= header.node_count * max_record_size(*header)) by (nonlinear_arith)
            requires
                0 <= max_record_size(*header),
        ;
    }
    max_body_size(header).saturating_sub(25)
}

/// An upper bound on the memory that a snapshot with this header takes once
/// loaded. A file's size does not bound it: a level's list costs 24 bytes in
/// memory and 2 in the file.
pub fn max_memory_estimate(header: &SnapshotHeader) -> (r: u64)
    ensures
        r == header.node_count * node_footprint(*header),
{
    let dim: u64 = header.dim as u64;
    let m: u64 = header.m as u64;
    let m_max0: u64 = header.m_max0 as u64;
    let per: u64 = 2 * (4 * dim) + 1 + 24 + 48 + 24 + 2 * 24 * 64 + 2 * (4 * m_max0 + 252 * m);
    let n: u64 = header.node_count as u64;
    proof {
        assert(0 <= n * per <= 0xffff_ffff * 0x400_0000) by (nonlinear_arith)
            requires
                n <= 0xffff_ffff,
                per <= 0x400_0000,
        ;
    }
    n * per
}

/// The parameters that a snapshot restores: its construction parameters, and
/// the default beam width of the caller.
pub fn params_from_header(header: &SnapshotHeader, ef_search_default: u32) -> (r: Result<
    HnswParams,
    HnswError,
>)
    ensures
        match params::param_fault(
            header.m,
            header.m_max0,
            header.ef_construction,
            ef_search_default,
        ) {
            Some(f) => r == Err::<HnswParams, HnswError>(
                HnswError::InvalidParams(Reason::Params(f)),
            ),
            None => r matches Ok(p) && p.spec_m() == header.m && p.spec_m_max0() == header.m_max0
                && p.spec_ef_construction() == header.ef_construction
                && p.spec_ef_search_default() == ef_search_default,
        },
{
    HnswParams::new(header.m, header.m_max0, header.ef_construction, ef_search_default)
}

} // verus!
