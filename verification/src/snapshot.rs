//! Saving a graph as a snapshot, and loading it back.
//!
//! The byte stream is that of [`crate::encoding`]. This module takes a graph
//! apart into records and puts it together again, and decides, before a byte
//! of the records is read, whether a file is worth reading: whoever owns the
//! file does the reading and writing.
//!
//! A loaded graph is read-only. The metric is not part of a snapshot; the
//! caller supplies it. Under the cosine a zero vector has no distance, so a
//! snapshot with one is refused under that metric.

use vstd::prelude::*;

use vstd::slice::slice_subrange;

use crate::bytes;
use crate::encoding;
use crate::encoding::BodyEncoder;
use crate::encoding::NodeRecord;
use crate::encoding::RecordData;
use crate::encoding::SnapshotFileData;
use crate::encoding::SnapshotHeader;
use crate::encoding_laws;
use crate::error::HnswError;
use crate::fault::Reason;
use crate::fault::SnapshotFault;
use crate::graph;
use crate::graph::Metric;
use crate::params;
use crate::params::HnswParams;
use crate::params::NodeId;

verus! {

/// Bytes of the checksum and the header, which every snapshot starts with.
pub const PREFIX_SIZE: usize = 29;

// ---------------------------------------------------------------------
// The graph in memory.
// ---------------------------------------------------------------------

/// A graph in memory: the vectors in one array, the nodes' levels, and their
/// neighbor lists by level.
#[derive(Debug)]
pub struct Hnsw {
    dim: u16,
    metric: Metric,
    params: HnswParams,
    entry_point: Option<NodeId>,
    max_level: u8,
    vectors: Vec<u32>,
    levels: Vec<u8>,
    adjacency: Vec<Vec<Vec<NodeId>>>,
    read_only: bool,
}

/// Construction parameters, as contracts speak of them.
pub struct ParamsView {
    /// The parameter `M`.
    pub m: u16,
    /// The parameter `M_max0`.
    pub m_max0: u16,
    /// The parameter `ef_construction`.
    pub ef_construction: u32,
    /// The default beam width.
    pub ef_search_default: u32,
}

/// Construction parameters, as contracts speak of them.
pub open spec fn params_view(p: HnswParams) -> ParamsView {
    ParamsView {
        m: p.spec_m(),
        m_max0: p.spec_m_max0(),
        ef_construction: p.spec_ef_construction(),
        ef_search_default: p.spec_ef_search_default(),
    }
}

/// A graph, as contracts speak of it.
pub struct GraphView {
    /// Vector dimension.
    pub dim: u16,
    /// Distance metric.
    pub metric: Metric,
    /// Construction parameters.
    pub params: ParamsView,
    /// Entry point; none in an empty graph.
    pub entry_point: Option<NodeId>,
    /// The entry point's level.
    pub max_level: u8,
    /// The nodes.
    pub nodes: Seq<RecordData>,
    /// Whether nothing can be inserted.
    pub read_only: bool,
}

/// The nodes that these arrays hold.
pub open spec fn nodes_of(
    dim: u16,
    vectors: Seq<u32>,
    adjacency: Seq<Vec<Vec<NodeId>>>,
) -> Seq<RecordData> {
    Seq::new(
        adjacency.len(),
        |i: int|
            RecordData {
                vector: vectors.subrange(i * dim, i * dim + dim),
                neighbors: encoding::id_lists(adjacency[i]@),
            },
    )
}

/// The arrays fit together: a vector and a level for every node, and lists
/// up to that level.
pub open spec fn arrays_fit(
    dim: u16,
    vectors: Seq<u32>,
    levels: Seq<u8>,
    adjacency: Seq<Vec<Vec<NodeId>>>,
) -> bool {
    &&& adjacency.len() == levels.len()
    &&& levels.len() <= u32::MAX
    &&& vectors.len() == levels.len() * dim
    &&& forall|i: int|
        0 <= i < levels.len() ==> (#[trigger] adjacency[i])@.len() == levels[i] + 1
}

/// A graph in order: its nodes can be numbered, it has an entry point if and
/// only if it has a node, and no vector is zero under the cosine.
pub open spec fn graph_ok(g: GraphView) -> bool {
    &&& g.nodes.len() <= u32::MAX
    &&& g.entry_point is Some <==> g.nodes.len() > 0
    &&& g.metric == Metric::Cosine ==> forall|i: int|
        0 <= i < g.nodes.len() ==> !graph::all_zero((#[trigger] g.nodes[i]).vector)
}

impl View for Hnsw {
    type V = GraphView;

    closed spec fn view(&self) -> GraphView {
        GraphView {
            dim: self.dim,
            metric: self.metric,
            params: params_view(self.params),
            entry_point: self.entry_point,
            max_level: self.max_level,
            nodes: nodes_of(self.dim, self.vectors@, self.adjacency@),
            read_only: self.read_only,
        }
    }
}

impl Hnsw {
    #[verifier::type_invariant]
    spec fn fits(self) -> bool {
        &&& arrays_fit(self.dim, self.vectors@, self.levels@, self.adjacency@)
        &&& graph_ok(self@)
        &&& self.read_only
    }

    /// A read-only graph from its arrays.
    pub fn from_parts(
        dim: u16,
        metric: Metric,
        params: HnswParams,
        entry_point: Option<NodeId>,
        max_level: u8,
        vectors: Vec<u32>,
        levels: Vec<u8>,
        adjacency: Vec<Vec<Vec<NodeId>>>,
    ) -> (g: Self)
        requires
            arrays_fit(dim, vectors@, levels@, adjacency@),
            graph_ok(
                (GraphView {
                    dim,
                    metric,
                    params: params_view(params),
                    entry_point,
                    max_level,
                    nodes: nodes_of(dim, vectors@, adjacency@),
                    read_only: true,
                }),
            ),
        ensures
            g@ == (GraphView {
                dim,
                metric,
                params: params_view(params),
                entry_point,
                max_level,
                nodes: nodes_of(dim, vectors@, adjacency@),
                read_only: true,
            }),
    {
        Hnsw {
            dim,
            metric,
            params,
            entry_point,
            max_level,
            vectors,
            levels,
            adjacency,
            read_only: true,
        }
    }

    /// Inserts a vector, if the graph takes any. A graph that was put together
    /// from its arrays, as one from a snapshot is, has no level draw to go on
    /// with: it is read-only, and refuses.
    pub fn insert(&mut self, _vector: &[u32]) -> (r: Result<NodeId, HnswError>)
        ensures
            old(self)@.read_only,
            r == Err::<NodeId, HnswError>(
                HnswError::InvalidOperation(Reason::Snapshot(SnapshotFault::ReadOnly)),
            ),
            final(self)@ == old(self)@,
    {
        proof {
            use_type_invariant(&*self);
        }
        Err(HnswError::InvalidOperation(Reason::Snapshot(SnapshotFault::ReadOnly)))
    }

    /// Vector dimension.
    pub fn dim(&self) -> (r: u16)
        ensures
            r == self@.dim,
    {
        self.dim
    }

    /// Distance metric.
    pub fn metric(&self) -> (r: Metric)
        ensures
            r == self@.metric,
    {
        self.metric
    }

    /// Construction parameters.
    pub fn params(&self) -> (r: HnswParams)
        ensures
            params_view(r) == self@.params,
    {
        self.params
    }

    /// Entry point; none in an empty graph.
    pub fn entry_point(&self) -> (r: Option<NodeId>)
        ensures
            r == self@.entry_point,
    {
        self.entry_point
    }

    /// The entry point's level.
    pub fn max_level(&self) -> (r: u8)
        ensures
            r == self@.max_level,
    {
        self.max_level
    }

    /// Whether nothing can be inserted.
    pub fn is_read_only(&self) -> (r: bool)
        ensures
            r == self@.read_only,
    {
        self.read_only
    }

    /// The number of nodes.
    pub fn node_count(&self) -> (n: usize)
        ensures
            n == self@.nodes.len(),
            n <= u32::MAX,
    {
        proof {
            use_type_invariant(self);
        }
        self.levels.len()
    }

    /// A node's top level.
    pub fn level(&self, id: NodeId) -> (l: u8)
        requires
            id.0 < self@.nodes.len(),
        ensures
            l == self@.nodes[id.0 as int].neighbors.len() - 1,
            l == encoding::tops(self@.nodes)[id.0 as int],
    {
        proof {
            use_type_invariant(self);
            assert(self.adjacency@[id.0 as int]@.len() == self.levels@[id.0 as int] + 1);
        }
        self.levels[id.0 as usize]
    }

    /// A node's vector.
    pub fn vector(&self, id: NodeId) -> (v: &[u32])
        requires
            id.0 < self@.nodes.len(),
        ensures
            v@ == self@.nodes[id.0 as int].vector,
    {
        proof {
            use_type_invariant(self);
            let n = self.levels@.len() as int;
            let d = self.dim as int;
            let i = id.0 as int;
            assert(i * d + d <= n * d && i * d >= 0) by (nonlinear_arith)
                requires
                    0 <= i < n,
                    d >= 0,
            ;
        }
        assert(self.vectors.len() == self.levels@.len() * self.dim);
        let at: usize = id.0 as usize * self.dim as usize;
        slice_subrange(&self.vectors, at, at + self.dim as usize)
    }

    /// A node's neighbor lists by level.
    pub fn node_adjacency(&self, id: NodeId) -> (lists: &Vec<Vec<NodeId>>)
        requires
            id.0 < self@.nodes.len(),
        ensures
            encoding::id_lists(lists@) == self@.nodes[id.0 as int].neighbors,
    {
        proof {
            use_type_invariant(self);
        }
        &self.adjacency[id.0 as usize]
    }
}

// ---------------------------------------------------------------------
// Saving.
// ---------------------------------------------------------------------

/// The header of a graph's snapshot.
pub open spec fn header_for(g: GraphView) -> SnapshotHeader {
    SnapshotHeader {
        dim: g.dim,
        m: g.params.m,
        m_max0: g.params.m_max0,
        ef_construction: g.params.ef_construction,
        node_count: g.nodes.len() as u32,
        entry_point: match g.entry_point {
            Some(id) => id.0,
            None => encoding::EMPTY_GRAPH_ENTRY_POINT,
        },
        max_level: g.max_level,
    }
}

/// What [`save`] answers: the snapshot's bytes, or why the graph has none.
pub open spec fn saved(g: GraphView) -> Result<Seq<u8>, HnswError> {
    match encoding::encoded(header_for(g), g.nodes) {
        Err(e) => Err(e),
        Ok(body) => Ok(encoding::wrapped(body)),
    }
}

/// Temporary names that a save tries before it gives up.
pub const MAX_TEMP_NAME_ATTEMPTS: u32 = 1024;

/// What came of creating a file under a temporary name, if there is none.
#[derive(Debug, Clone, Copy, PartialEq, Eq, Structural)]
pub enum OpenOutcomeKind {
    /// The file is there, and ours.
    Created,
    /// The name is taken: the file is not ours, and is left alone.
    Taken,
    /// It failed in another way.
    Failed,
}

/// What a save does next.
#[derive(Debug, Clone, Copy, PartialEq, Eq, Structural)]
pub enum SaveStep {
    /// Write the snapshot to the file and rename it.
    Stream,
    /// Try the next name.
    Retry,
    /// Report the failure.
    Fail,
    /// Report that no name is to be had.
    GiveUp,
}

/// What a save does once it has tried `tried` names, of which the last came
/// out as `outcome`.
pub fn after_open(tried: u32, outcome: OpenOutcomeKind) -> (next: SaveStep)
    ensures
        next == match outcome {
            OpenOutcomeKind::Created => SaveStep::Stream,
            OpenOutcomeKind::Failed => SaveStep::Fail,
            OpenOutcomeKind::Taken => if tried < MAX_TEMP_NAME_ATTEMPTS {
                SaveStep::Retry
            } else {
                SaveStep::GiveUp
            },
        },
{
    match outcome {
        OpenOutcomeKind::Created => SaveStep::Stream,
        OpenOutcomeKind::Failed => SaveStep::Fail,
        OpenOutcomeKind::Taken => if tried < MAX_TEMP_NAME_ATTEMPTS {
            SaveStep::Retry
        } else {
            SaveStep::GiveUp
        },
    }
}

/// The error of a save that has found no temporary name.
pub fn no_temp_name() -> (e: HnswError)
    ensures
        e == HnswError::InvalidOperation(
            Reason::Snapshot(SnapshotFault::NoTempName { attempts: MAX_TEMP_NAME_ATTEMPTS }),
        ),
{
    HnswError::InvalidOperation(
        Reason::Snapshot(SnapshotFault::NoTempName { attempts: MAX_TEMP_NAME_ATTEMPTS }),
    )
}

/// A snapshot on its way out, record by record.
pub struct SaveStream<'a> {
    graph: &'a Hnsw,
    enc: BodyEncoder,
}

impl<'a> SaveStream<'a> {
    /// The graph.
    pub closed spec fn source(&self) -> GraphView {
        self.graph@
    }

    /// How many records are out.
    pub closed spec fn sent(&self) -> nat {
        self.enc.spec_written() as nat
    }

    /// The header and that many records are out, and nothing is wrong with
    /// them.
    pub closed spec fn well_formed(&self) -> bool {
        let g = self.graph@;
        let h = header_for(g);
        let n = self.enc.spec_written() as int;
        &&& self.enc.well_formed()
        &&& self.enc.spec_header() == h
        &&& self.enc.spec_levels() == encoding::tops(g.nodes)
        &&& n <= g.nodes.len() <= u32::MAX
        &&& self.enc.body() == encoding::header_bytes(h) + encoding::records_bytes(g.nodes.take(n))
        &&& self.enc.pending() == Seq::<u8>::empty()
        &&& encoding::start_fault(h, encoding::tops(g.nodes)) is None
        &&& encoding::pushes_fault(h, encoding::tops(g.nodes), g.nodes, n as nat) is None
    }

    /// Starts a snapshot: checks the header and the levels, and gives the
    /// bytes of the header.
    pub fn start(graph: &'a Hnsw) -> (r: Result<(Self, Vec<u8>), HnswError>)
        ensures
            match encoding::start_fault(header_for(graph@), encoding::tops(graph@.nodes)) {
                Some(f) => r == Err::<(Self, Vec<u8>), HnswError>(encoding::corrupt(f)),
                None => r matches Ok((s, head)) && {
                    &&& s.well_formed()
                    &&& s.source() == graph@
                    &&& s.sent() == 0
                    &&& head@ == encoding::header_bytes(header_for(graph@))
                },
            },
    {
        let params: HnswParams = graph.params();
        let n: usize = graph.node_count();
        let header: SnapshotHeader = SnapshotHeader {
            dim: graph.dim(),
            m: params.m(),
            m_max0: params.m_max0(),
            ef_construction: params.ef_construction(),
            node_count: n as u32,
            entry_point: match graph.entry_point() {
                Some(id) => id.0,
                None => encoding::EMPTY_GRAPH_ENTRY_POINT,
            },
            max_level: graph.max_level(),
        };
        let mut levels: Vec<u8> = Vec::new();
        let mut i: usize = 0;
        while i < n
            invariant
                i <= n <= u32::MAX,
                n == graph@.nodes.len(),
                levels@ == encoding::tops(graph@.nodes).take(i as int),
            decreases n - i,
        {
            levels.push(graph.level(NodeId(i as u32)));
            assert(levels@ =~= encoding::tops(graph@.nodes).take(i + 1));
            i = i + 1;
        }
        assert(levels@ =~= encoding::tops(graph@.nodes));
        let mut enc: BodyEncoder = match BodyEncoder::new(header, levels, Vec::new()) {
            Err(e) => {
                return Err(e);
            },
            Ok(enc) => enc,
        };
        let head: Vec<u8> = enc.drain();
        proof {
            let h = header_for(graph@);
            assert(head@ =~= encoding::header_bytes(h));
            assert(enc.body() =~= encoding::header_bytes(h) + encoding::records_bytes(
                graph@.nodes.take(0),
            ));
        }
        Ok((SaveStream { graph, enc }, head))
    }

    /// The bytes of the next record; none when all are out.
    pub fn next_chunk(&mut self) -> (r: Result<Option<Vec<u8>>, HnswError>)
        requires
            old(self).well_formed(),
        ensures
            ({
                let g = old(self).source();
                let n = old(self).sent() as int;
                let fault = encoding::push_fault(
                    header_for(g),
                    encoding::tops(g.nodes),
                    n,
                    g.nodes[n],
                );
                if n == g.nodes.len() {
                    r == Ok::<Option<Vec<u8>>, HnswError>(None) && final(self).sent() == n
                } else if fault is Some {
                    &&& r == Err::<Option<Vec<u8>>, HnswError>(encoding::corrupt(fault->0))
                    &&& final(self).sent() == n
                } else {
                    &&& r matches Ok(Some(b))
                    &&& b@ == encoding::record_bytes(g.nodes[n])
                    &&& final(self).sent() == n + 1
                }
            }),
            final(self).well_formed(),
            final(self).source() == old(self).source(),
    {
        let ghost g = self.graph@;
        let ghost h = header_for(g);
        let ghost n = self.enc.spec_written() as int;
        let i: u32 = self.enc.written();
        if i as usize == self.graph.node_count() {
            return Ok(None);
        }
        let id: NodeId = NodeId(i);
        match self.enc.push_record(self.graph.vector(id), self.graph.node_adjacency(id)) {
            Err(e) => {
                return Err(e);
            },
            Ok(_) => {},
        }
        let b: Vec<u8> = self.enc.drain();
        proof {
            assert(b@ =~= encoding::record_bytes(g.nodes[n]));
            assert(g.nodes.take(n + 1).drop_last() =~= g.nodes.take(n));
            assert(g.nodes.take(n + 1).last() == g.nodes[n]);
            assert(self.enc.body() =~= encoding::header_bytes(h) + encoding::records_bytes(
                g.nodes.take(n + 1),
            ));
        }
        Ok(Some(b))
    }

    /// The checksum of the whole body, once all records are out.
    pub fn finish(self) -> (r: Result<u32, HnswError>)
        requires
            self.well_formed(),
            self.sent() == self.source().nodes.len(),
        ensures
            r == Ok::<u32, HnswError>(
                crate::crc::crc32_of(
                    encoding::body_bytes(header_for(self.source()), self.source().nodes),
                ),
            ),
            encoding::encoded(header_for(self.source()), self.source().nodes) is Ok,
    {
        proof {
            let g = self.graph@;
            assert(g.nodes.take(g.nodes.len() as int) =~= g.nodes);
        }
        match self.enc.finish() {
            Err(e) => Err(e),
            Ok((crc, _)) => Ok(crc),
        }
    }
}

/// The bytes of a graph's snapshot. The graph is only read, and may be
/// read-only; one that could not be loaded is refused.
pub fn save(graph: &Hnsw) -> (r: Result<Vec<u8>, HnswError>)
    ensures
        match saved(graph@) {
            Err(e) => r == Err::<Vec<u8>, HnswError>(e),
            Ok(b) => r matches Ok(v) && v@ == b,
        },
        graph_ok(graph@),
{
    proof {
        use_type_invariant(graph);
    }
    let ghost g = graph@;
    let ghost h = header_for(g);
    let (mut s, head) = match SaveStream::start(graph) {
        Err(e) => {
            return Err(e);
        },
        Ok(started) => started,
    };
    let mut body: Vec<u8> = head;
    let mut left: usize = graph.node_count();
    assert(body@ =~= encoding::header_bytes(h) + encoding::records_bytes(g.nodes.take(0)));
    while left > 0
        invariant
            g == graph@,
            graph_ok(g),
            h == header_for(g),
            s.well_formed(),
            s.source() == g,
            s.sent() + left == g.nodes.len(),
            body@ == encoding::header_bytes(h) + encoding::records_bytes(
                g.nodes.take(s.sent() as int),
            ),
            encoding::start_fault(h, encoding::tops(g.nodes)) is None,
            encoding::pushes_fault(h, encoding::tops(g.nodes), g.nodes, s.sent()) is None,
        decreases left,
    {
        let ghost n = s.sent() as int;
        match s.next_chunk() {
            Err(e) => {
                proof {
                    encoding::lemma_pushes_fault_stays(
                        h,
                        encoding::tops(g.nodes),
                        g.nodes,
                        (n + 1) as nat,
                        g.nodes.len(),
                    );
                }
                return Err(e);
            },
            Ok(None) => {},
            Ok(Some(b)) => {
                bytes::append_bytes(&mut body, &b);
                proof {
                    assert(g.nodes.take(n + 1).drop_last() =~= g.nodes.take(n));
                    assert(g.nodes.take(n + 1).last() == g.nodes[n]);
                    assert(body@ =~= encoding::header_bytes(h) + encoding::records_bytes(
                        g.nodes.take(n + 1),
                    ));
                }
            },
        }
        left = left - 1;
    }
    proof {
        assert(g.nodes.take(g.nodes.len() as int) =~= g.nodes);
    }
    let crc: u32 = match s.finish() {
        Err(e) => {
            return Err(e);
        },
        Ok(crc) => crc,
    };
    let mut out: Vec<u8> = Vec::new();
    bytes::push_u32(&mut out, crc);
    bytes::append_bytes(&mut out, &body);
    assert(out@ =~= encoding::wrapped(encoding::body_bytes(h, g.nodes)));
    Ok(out)
}

// ---------------------------------------------------------------------
// Loading.
// ---------------------------------------------------------------------

/// What a load may cost. A file's size does not bound the memory that it
/// takes once loaded, so there are two limits.
#[derive(Debug, Clone, Copy, PartialEq, Eq, Structural)]
pub struct LoadBudget {
    /// Bytes of the file; at least those of the prefix.
    pub max_file_bytes: u64,
    /// Estimated bytes of memory.
    pub max_memory_bytes: u64,
}

impl LoadBudget {
    /// No limits, for files that are trusted.
    pub fn unlimited() -> (b: Self)
        ensures
            b == (LoadBudget { max_file_bytes: u64::MAX, max_memory_bytes: u64::MAX }),
    {
        LoadBudget { max_file_bytes: u64::MAX, max_memory_bytes: u64::MAX }
    }
}

/// Bytes of the records in a file of this length.
pub open spec fn spec_body_len(file_len: u64) -> u64 {
    if file_len < PREFIX_SIZE {
        0
    } else {
        (file_len - PREFIX_SIZE) as u64
    }
}

/// Bytes of the records in a file of this length; none where it is shorter
/// than the prefix.
pub fn body_len(file_len: u64) -> (n: u64)
    ensures
        n == spec_body_len(file_len),
{
    file_len.saturating_sub(PREFIX_SIZE as u64)
}

/// The bytes that are read at most.
pub open spec fn spec_read_cap(max_file_bytes: u64, max_records: u64) -> u64 {
    let ceiling = PREFIX_SIZE + max_records;
    let least = if max_file_bytes < ceiling {
        max_file_bytes as int
    } else {
        ceiling
    };
    if least + 1 > u64::MAX {
        u64::MAX
    } else {
        (least + 1) as u64
    }
}

/// The bytes that are read at most: the smaller of the budget and the format's
/// ceiling, and one more, so that a file that has grown is found out instead
/// of being cut to a legal one.
pub fn read_cap(max_file_bytes: u64, max_records: u64) -> (n: u64)
    ensures
        n == spec_read_cap(max_file_bytes, max_records),
{
    let ceiling: u64 = (PREFIX_SIZE as u64).saturating_add(max_records);
    let least: u64 = if max_file_bytes < ceiling {
        max_file_bytes
    } else {
        ceiling
    };
    least.saturating_add(1)
}

/// The error for a budget, an argument, that a snapshot does not fit.
pub open spec fn unfit(f: SnapshotFault) -> HnswError {
    HnswError::InvalidArgument(Reason::Snapshot(f))
}

/// The error for a file that cannot be a snapshot.
pub open spec fn broken(f: SnapshotFault) -> HnswError {
    HnswError::Corrupted(Reason::Snapshot(f))
}

/// Checks that the budget covers the prefix; the first check, before a file
/// is opened.
pub fn check_budget(budget: &LoadBudget) -> (r: Result<(), HnswError>)
    ensures
        r == (if budget.max_file_bytes < PREFIX_SIZE {
            Err::<(), HnswError>(
                unfit(SnapshotFault::BudgetFloor { budget: budget.max_file_bytes }),
            )
        } else {
            Ok(())
        }),
{
    if budget.max_file_bytes < PREFIX_SIZE as u64 {
        return Err(
            HnswError::InvalidArgument(
                Reason::Snapshot(SnapshotFault::BudgetFloor { budget: budget.max_file_bytes }),
            ),
        );
    }
    Ok(())
}

/// Checks that the file is a regular one; the second check, before its length
/// is trusted or a byte is read.
pub fn check_regular(is_file: bool) -> (r: Result<(), HnswError>)
    ensures
        r == (if !is_file {
            Err::<(), HnswError>(unfit(SnapshotFault::NotRegular))
        } else {
            Ok(())
        }),
{
    if !is_file {
        return Err(HnswError::InvalidArgument(Reason::Snapshot(SnapshotFault::NotRegular)));
    }
    Ok(())
}

/// What the prefix of a snapshot decides.
#[derive(Debug, Clone, Copy)]
pub struct LoadPlan {
    /// The header.
    pub header: SnapshotHeader,
    /// The graph's parameters.
    pub params: HnswParams,
    /// How many bytes behind the prefix are read at most.
    pub remaining: u64,
}

/// What is wrong with a file of this length and header, if anything; the
/// checks in this order. Nothing but the prefix has been read.
pub open spec fn plan_fault(
    budget: LoadBudget,
    file_len: u64,
    h: SnapshotHeader,
    ef_search_default: u32,
) -> Option<HnswError> {
    let estimate = h.node_count * encoding::node_footprint(h);
    let records = spec_body_len(file_len);
    let min = encoding::min_record_size(h.dim);
    let max = h.node_count * encoding::max_record_size(h);
    let fault = params::param_fault(h.m, h.m_max0, h.ef_construction, ef_search_default);
    if file_len > budget.max_file_bytes {
        Some(unfit(SnapshotFault::FileBudget { len: file_len, budget: budget.max_file_bytes }))
    } else if estimate > budget.max_memory_bytes {
        Some(
            unfit(
                SnapshotFault::MemoryBudget {
                    estimate: estimate as u64,
                    budget: budget.max_memory_bytes,
                },
            ),
        )
    } else if fault is Some {
        Some(HnswError::InvalidParams(Reason::Params(fault->0)))
    } else if h.node_count > records as int / min {
        Some(
            broken(
                SnapshotFault::NodeCountOverFile {
                    declared: h.node_count,
                    fit: (records as int / min) as u64,
                    bytes: records,
                    min: min as u64,
                },
            ),
        )
    } else if records > max {
        Some(broken(SnapshotFault::TrailingGarbage { bytes: records, max: max as u64 }))
    } else {
        None
    }
}

/// How many bytes behind the prefix are read at most.
pub open spec fn rest_cap(budget: LoadBudget, h: SnapshotHeader) -> u64 {
    let max = h.node_count * encoding::max_record_size(h);
    spec_body_len(spec_read_cap(budget.max_file_bytes, max as u64))
}

/// The header in a prefix, where the checks pass.
pub open spec fn planned(
    budget: LoadBudget,
    file_len: u64,
    prefix: Seq<u8>,
    ef_search_default: u32,
) -> Result<SnapshotHeader, HnswError> {
    if prefix.len() < PREFIX_SIZE {
        Err(broken(SnapshotFault::TooShort { len: file_len }))
    } else {
        match encoding::header_of(prefix.subrange(4, prefix.len() as int)) {
            Err(e) => Err(e),
            Ok(h) => match plan_fault(budget, file_len, h, ef_search_default) {
                Some(e) => Err(e),
                None => Ok(h),
            },
        }
    }
}

/// Decides from a file's length and its first bytes whether the rest is worth
/// reading, and how much of it: the header; the budgets; the default beam
/// width; and the length, which must be that of some snapshot with this
/// header.
pub fn plan_load(budget: &LoadBudget, file_len: u64, prefix: &[u8], ef_search_default: u32) -> (r:
    Result<LoadPlan, HnswError>)
    ensures
        match planned(*budget, file_len, prefix@, ef_search_default) {
            Err(e) => r == Err::<LoadPlan, HnswError>(e),
            Ok(h) => r matches Ok(plan) && plan.header == h && params_view(plan.params) == (
            ParamsView {
                m: h.m,
                m_max0: h.m_max0,
                ef_construction: h.ef_construction,
                ef_search_default,
            }) && plan.remaining == rest_cap(*budget, h),
        },
{
    if prefix.len() < PREFIX_SIZE {
        return Err(
            HnswError::Corrupted(Reason::Snapshot(SnapshotFault::TooShort { len: file_len })),
        );
    }
    let header: SnapshotHeader = match SnapshotHeader::decode(
        slice_subrange(prefix, encoding::CRC32_SIZE, prefix.len()),
    ) {
        Err(e) => {
            return Err(e);
        },
        Ok(h) => h,
    };
    if file_len > budget.max_file_bytes {
        return Err(
            HnswError::InvalidArgument(
                Reason::Snapshot(
                    SnapshotFault::FileBudget { len: file_len, budget: budget.max_file_bytes },
                ),
            ),
        );
    }
    let estimate: u64 = encoding::max_memory_estimate(&header);
    if estimate > budget.max_memory_bytes {
        return Err(
            HnswError::InvalidArgument(
                Reason::Snapshot(
                    SnapshotFault::MemoryBudget { estimate, budget: budget.max_memory_bytes },
                ),
            ),
        );
    }
    let params: HnswParams = match encoding::params_from_header(&header, ef_search_default) {
        Err(e) => {
            return Err(e);
        },
        Ok(p) => p,
    };
    let min: u64 = 2 + 4 * header.dim as u64 + 1 + 2;
    let records: u64 = body_len(file_len);
    let fit: u64 = records / min;
    if header.node_count as u64 > fit {
        return Err(
            HnswError::Corrupted(
                Reason::Snapshot(
                    SnapshotFault::NodeCountOverFile {
                        declared: header.node_count,
                        fit,
                        bytes: records,
                        min,
                    },
                ),
            ),
        );
    }
    let max: u64 = encoding::max_records_size(&header);
    if records > max {
        return Err(
            HnswError::Corrupted(
                Reason::Snapshot(SnapshotFault::TrailingGarbage { bytes: records, max }),
            ),
        );
    }
    let remaining: u64 = read_cap(budget.max_file_bytes, max).saturating_sub(PREFIX_SIZE as u64);
    Ok(LoadPlan { header, params, remaining })
}

/// The first of the first `n` nodes whose vector `metric` cannot serve.
pub open spec fn unserved(metric: Metric, nodes: Seq<RecordData>, n: nat) -> Option<int>
    decreases n,
{
    if n == 0 {
        None
    } else {
        match unserved(metric, nodes, (n - 1) as nat) {
            Some(i) => Some(i),
            None => if graph::vector_check(metric, nodes[n - 1].vector) is Err {
                Some(n - 1)
            } else {
                None
            },
        }
    }
}

/// The graph in a snapshot's bytes; the checks in this order.
pub open spec fn rebuilt(b: Seq<u8>, metric: Metric, params: ParamsView) -> Result<
    GraphView,
    HnswError,
> {
    match encoding::unwrapped(b) {
        Err(e) => Err(e),
        Ok(body) => match encoding::body_of(body) {
            Err(e) => Err(e),
            Ok((h, nodes)) => {
                let bad = unserved(metric, nodes, nodes.len());
                if metric == Metric::Cosine && bad is Some {
                    Err(unfit(SnapshotFault::ZeroVector { node: bad->0 as usize }))
                } else {
                    Ok(
                        GraphView {
                            dim: h.dim,
                            metric,
                            params,
                            entry_point: if h.node_count > 0 {
                                Some(NodeId(h.entry_point))
                            } else {
                                None
                            },
                            max_level: h.max_level,
                            nodes,
                            read_only: true,
                        },
                    )
                }
            },
        },
    }
}

/// A node among the first is the one among all.
proof fn lemma_unserved_stays(metric: Metric, nodes: Seq<RecordData>, n: nat, all: nat)
    requires
        n <= all,
        unserved(metric, nodes, n) is Some,
    ensures
        unserved(metric, nodes, all) == unserved(metric, nodes, n),
    decreases all - n,
{
    if n < all {
        lemma_unserved_stays(metric, nodes, n, (all - 1) as nat);
    }
}

/// Every node's vector can be served if and only if none is found that cannot.
proof fn lemma_all_served(metric: Metric, nodes: Seq<RecordData>, n: nat)
    requires
        n <= nodes.len(),
    ensures
        unserved(metric, nodes, n) is None <==> forall|i: int|
            0 <= i < n ==> graph::vector_check(metric, (#[trigger] nodes[i]).vector) is Ok,
    decreases n,
{
    if n > 0 {
        lemma_all_served(metric, nodes, (n - 1) as nat);
    }
}

/// Finds a node whose vector `metric` cannot serve.
fn find_unserved(metric: Metric, nodes: &Vec<NodeRecord>) -> (r: Option<usize>)
    ensures
        match unserved(metric, encoding::records(nodes@), nodes@.len()) {
            Some(i) => r matches Some(k) && k == i,
            None => r is None,
        },
{
    let ghost data = encoding::records(nodes@);
    let mut i: usize = 0;
    while i < nodes.len()
        invariant
            i <= nodes@.len(),
            data == encoding::records(nodes@),
            unserved(metric, data, i as nat) is None,
        decreases nodes@.len() - i,
    {
        assert(data[i as int].vector == nodes@[i as int].vector@);
        if metric.check_vector(&nodes[i].vector).is_err() {
            proof {
                lemma_unserved_stays(metric, data, (i + 1) as nat, data.len());
            }
            return Some(i);
        }
        i = i + 1;
    }
    None
}

/// Splits records into the arrays of a graph.
fn split(dim: u16, nodes: Vec<NodeRecord>) -> (r: (Vec<u32>, Vec<u8>, Vec<Vec<Vec<NodeId>>>))
    requires
        nodes.len() <= u32::MAX,
        forall|i: int|
            0 <= i < nodes@.len() ==> (#[trigger] nodes@[i]).vector@.len() == dim
                && nodes@[i].neighbors@.len() >= 1 && nodes@[i].neighbors@.len() <= 64,
    ensures
        arrays_fit(dim, r.0@, r.1@, r.2@),
        nodes_of(dim, r.0@, r.2@) == encoding::records(nodes@),
{
    let ghost data = encoding::records(nodes@);
    let n: usize = nodes.len();
    let mut nodes: Vec<NodeRecord> = nodes;
    let ghost given = nodes@;
    let mut vectors: Vec<u32> = Vec::new();
    let mut levels: Vec<u8> = Vec::new();
    let mut adjacency: Vec<Vec<Vec<NodeId>>> = Vec::new();
    let mut i: usize = 0;
    assert(nodes_of(dim, vectors@, adjacency@) =~= data.take(0));
    assert(0 * dim == 0);
    while i < n
        invariant
            i <= n <= u32::MAX,
            n == nodes@.len(),
            n == given.len(),
            data == encoding::records(given),
            forall|j: int| i <= j < n ==> nodes@[j] == given[j],
            forall|j: int|
                0 <= j < n ==> (#[trigger] given[j]).vector@.len() == dim
                    && given[j].neighbors@.len() >= 1 && given[j].neighbors@.len() <= 64,
            arrays_fit(dim, vectors@, levels@, adjacency@),
            levels@.len() == i,
            nodes_of(dim, vectors@, adjacency@) == data.take(i as int),
        decreases n - i,
    {
        assert(nodes@[i as int] == given[i as int]);
        let ghost before = vectors@;
        let ghost lists_before = adjacency@;
        let top: usize = nodes[i].neighbors.len() - 1;
        append_words(&mut vectors, &nodes[i].vector);
        levels.push(top as u8);
        let mut lists: Vec<Vec<NodeId>> = Vec::new();
        std::mem::swap(&mut lists, &mut nodes[i].neighbors);
        adjacency.push(lists);
        proof {
            lemma_nodes_of_push(dim, before, lists_before, given[i as int].vector@, lists);
            assert(data[i as int] == given[i as int]@);
            assert(nodes_of(dim, vectors@, adjacency@) =~= data.take(i + 1));
            assert((i + 1) * dim == i * dim + dim) by (nonlinear_arith);
        }
        i = i + 1;
    }
    assert(data.take(n as int) =~= data);
    (vectors, levels, adjacency)
}

/// Appends words.
fn append_words(v: &mut Vec<u32>, w: &[u32])
    ensures
        final(v)@ == old(v)@ + w@,
{
    let mut i: usize = 0;
    assert(v@ =~= old(v)@ + w@.take(0));
    while i < w.len()
        invariant
            i <= w@.len(),
            v@ == old(v)@ + w@.take(i as int),
        decreases w@.len() - i,
    {
        v.push(w[i]);
        assert(v@ =~= old(v)@ + w@.take(i + 1));
        i = i + 1;
    }
    assert(w@.take(i as int) =~= w@);
}

/// One more node at the end of the arrays is one more node.
proof fn lemma_nodes_of_push(
    dim: u16,
    vectors: Seq<u32>,
    adjacency: Seq<Vec<Vec<NodeId>>>,
    vector: Seq<u32>,
    lists: Vec<Vec<NodeId>>,
)
    requires
        vectors.len() == adjacency.len() * dim,
        vector.len() == dim,
    ensures
        nodes_of(dim, vectors + vector, adjacency.push(lists)) == nodes_of(
            dim,
            vectors,
            adjacency,
        ).push(RecordData { vector, neighbors: encoding::id_lists(lists@) }),
{
    let n = adjacency.len() as int;
    let a = nodes_of(dim, vectors + vector, adjacency.push(lists));
    let b = nodes_of(dim, vectors, adjacency).push(
        RecordData { vector, neighbors: encoding::id_lists(lists@) },
    );
    assert forall|i: int| 0 <= i < n + 1 implies a[i] == b[i] by {
        let d = dim as int;
        if i < n {
            assert(i * d + d <= n * d && i * d >= 0) by (nonlinear_arith)
                requires
                    0 <= i < n,
                    d >= 0,
            ;
            assert((vectors + vector).subrange(i * d, i * d + d) =~= vectors.subrange(
                i * d,
                i * d + d,
            ));
        } else {
            assert((vectors + vector).subrange(n * d, n * d + d) =~= vector);
        }
    }
    assert(a =~= b);
}

/// Rebuilds a graph from a snapshot's bytes: the checksum, the body, and
/// whether the metric can serve its vectors.
pub fn finish_load(b: &[u8], metric: Metric, params: HnswParams) -> (r: Result<Hnsw, HnswError>)
    ensures
        match rebuilt(b@, metric, params_view(params)) {
            Err(e) => r == Err::<Hnsw, HnswError>(e),
            Ok(g) => r matches Ok(h) && h@ == g,
        },
{
    let body: &[u8] = match encoding::unwrap_crc32(b) {
        Err(e) => {
            return Err(e);
        },
        Ok(body) => body,
    };
    let decoded: SnapshotFileData = match encoding::decode_snapshot_body(body) {
        Err(e) => {
            return Err(e);
        },
        Ok(d) => d,
    };
    let header: SnapshotHeader = decoded.header;
    let nodes: Vec<NodeRecord> = decoded.nodes;
    if metric == Metric::Cosine {
        match find_unserved(metric, &nodes) {
            Some(node) => {
                return Err(
                    HnswError::InvalidArgument(
                        Reason::Snapshot(SnapshotFault::ZeroVector { node }),
                    ),
                );
            },
            None => {},
        }
    }
    proof {
        let data = encoding::records(nodes@);
        encoding_laws::lemma_body_is_canonical(body@);
        assert(data.len() == header.node_count);
        assert(nodes.len() == header.node_count);
        assert forall|i: int| 0 <= i < nodes@.len() implies (#[trigger] nodes@[i]).vector@.len()
            == header.dim && nodes@[i].neighbors@.len() >= 1 && nodes@[i].neighbors@.len()
            <= 64 by {
            assert(encoding_laws::legal_node(header, data[i]));
            assert(data[i] == nodes@[i]@);
            assert(data[i].neighbors.len() == nodes@[i].neighbors@.len());
        }
        if metric == Metric::Cosine {
            lemma_all_served(metric, data, data.len());
        }
    }
    let (vectors, levels, adjacency) = split(header.dim, nodes);
    let entry_point: Option<NodeId> = if header.node_count > 0 {
        Some(NodeId(header.entry_point))
    } else {
        None
    };
    Ok(
        Hnsw::from_parts(
            header.dim,
            metric,
            params,
            entry_point,
            header.max_level,
            vectors,
            levels,
            adjacency,
        ),
    )
}

/// What [`load_with_budget`] answers.
pub open spec fn loaded(
    is_file: bool,
    file_len: u64,
    b: Seq<u8>,
    metric: Metric,
    ef_search_default: u32,
    budget: LoadBudget,
) -> Result<GraphView, HnswError> {
    let prefix = if b.len() < PREFIX_SIZE {
        b
    } else {
        b.take(PREFIX_SIZE as int)
    };
    if budget.max_file_bytes < PREFIX_SIZE {
        Err(unfit(SnapshotFault::BudgetFloor { budget: budget.max_file_bytes }))
    } else if !is_file {
        Err(unfit(SnapshotFault::NotRegular))
    } else {
        match planned(budget, file_len, prefix, ef_search_default) {
            Err(e) => Err(e),
            Ok(h) => {
                let cap = PREFIX_SIZE + rest_cap(budget, h);
                let read = if b.len() <= cap {
                    b
                } else {
                    b.take(cap)
                };
                rebuilt(
                    read,
                    metric,
                    ParamsView {
                        m: h.m,
                        m_max0: h.m_max0,
                        ef_construction: h.ef_construction,
                        ef_search_default,
                    },
                )
            },
        }
    }
}

/// Loads a snapshot from the bytes of a file that is said to be `file_len`
/// long, within a budget. The checks that need the prefix alone come first;
/// no more than the budget and the format allow is looked at.
pub fn load_with_budget(
    is_file: bool,
    file_len: u64,
    b: &[u8],
    metric: Metric,
    ef_search_default: u32,
    budget: LoadBudget,
) -> (r: Result<Hnsw, HnswError>)
    ensures
        match loaded(is_file, file_len, b@, metric, ef_search_default, budget) {
            Err(e) => r == Err::<Hnsw, HnswError>(e),
            Ok(g) => r matches Ok(h) && h@ == g,
        },
{
    match check_budget(&budget) {
        Err(e) => {
            return Err(e);
        },
        Ok(_) => {},
    }
    match check_regular(is_file) {
        Err(e) => {
            return Err(e);
        },
        Ok(_) => {},
    }
    let prefix: &[u8] = if b.len() < PREFIX_SIZE {
        b
    } else {
        slice_subrange(b, 0, PREFIX_SIZE)
    };
    assert(prefix@ =~= (if b@.len() < PREFIX_SIZE {
        b@
    } else {
        b@.take(PREFIX_SIZE as int)
    }));
    let plan: LoadPlan = match plan_load(&budget, file_len, prefix, ef_search_default) {
        Err(e) => {
            return Err(e);
        },
        Ok(plan) => plan,
    };
    let rest: usize = b.len() - PREFIX_SIZE;
    let read: &[u8] = if rest as u64 <= plan.remaining {
        b
    } else {
        slice_subrange(b, 0, PREFIX_SIZE + plan.remaining as usize)
    };
    assert(read@ =~= (if b@.len() <= PREFIX_SIZE + plan.remaining {
        b@
    } else {
        b@.take(PREFIX_SIZE + plan.remaining)
    }));
    finish_load(read, metric, plan.params)
}

/// Loads a snapshot from a trusted file's bytes.
pub fn load(b: &[u8], metric: Metric, ef_search_default: u32) -> (r: Result<Hnsw, HnswError>)
    ensures
        match loaded(
            true,
            b@.len() as u64,
            b@,
            metric,
            ef_search_default,
            LoadBudget { max_file_bytes: u64::MAX, max_memory_bytes: u64::MAX },
        ) {
            Err(e) => r == Err::<Hnsw, HnswError>(e),
            Ok(g) => r matches Ok(h) && h@ == g,
        },
{
    load_with_budget(
        true,
        b.len() as u64,
        b,
        metric,
        ef_search_default,
        LoadBudget::unlimited(),
    )
}

// ---------------------------------------------------------------------
// What saving and loading promise.
// ---------------------------------------------------------------------

/// Of a legal graph's nodes, only one with a zero vector cannot be served, and
/// only under the cosine.
pub proof fn lemma_zero_is_unserved(h: SnapshotHeader, nodes: Seq<RecordData>, metric: Metric)
    requires
        encoding_laws::legal_graph(h, nodes),
    ensures
        unserved(metric, nodes, nodes.len()) is Some <==> metric == Metric::Cosine && exists|i: int|
            0 <= i < nodes.len() && graph::all_zero((#[trigger] nodes[i]).vector),
{
    lemma_all_served(metric, nodes, nodes.len());
    assert forall|i: int| 0 <= i < nodes.len() implies (graph::vector_check(
        metric,
        (#[trigger] nodes[i]).vector,
    ) is Err <==> metric == Metric::Cosine && graph::all_zero(nodes[i].vector)) by {
        assert(encoding_laws::legal_node(h, nodes[i]));
        graph::lemma_first_nonfinite(nodes[i].vector);
    }
}

/// What was saved loads back under its own metric: the same graph, bit for
/// bit, now read-only, with any default beam width in its domain. It loads
/// under another metric too, but for one case: a graph with a zero vector has
/// no cosine, and the first such node is named.
pub proof fn lemma_saved_loads(g: GraphView, metric: Metric, ef_search_default: u32)
    requires
        graph_ok(g),
        saved(g) is Ok,
        saved(g)->Ok_0.len() <= u64::MAX,
        ef_search_default >= g.params.m,
    ensures
        ({
            let r = loaded(
                true,
                saved(g)->Ok_0.len() as u64,
                saved(g)->Ok_0,
                metric,
                ef_search_default,
                LoadBudget { max_file_bytes: u64::MAX, max_memory_bytes: u64::MAX },
            );
            &&& metric == g.metric ==> r is Ok
            &&& r is Err <==> metric == Metric::Cosine && exists|i: int|
                0 <= i < g.nodes.len() && graph::all_zero((#[trigger] g.nodes[i]).vector)
            &&& r == match unserved(metric, g.nodes, g.nodes.len()) {
                Some(i) => Err::<GraphView, HnswError>(
                    unfit(SnapshotFault::ZeroVector { node: i as usize }),
                ),
                None => Ok(
                    GraphView {
                        metric,
                        params: ParamsView { ef_search_default, ..g.params },
                        read_only: true,
                        ..g
                    },
                ),
            }
        }),
{
    let h = header_for(g);
    let body = encoding::body_bytes(h, g.nodes);
    let b = encoding::wrapped(body);
    let budget = LoadBudget { max_file_bytes: u64::MAX, max_memory_bytes: u64::MAX };
    encoding_laws::lemma_legal_graphs_encode(h, g.nodes);
    encoding_laws::lemma_body_round_trip(h, g.nodes);
    lemma_zero_is_unserved(h, g.nodes, metric);
    encoding_laws::lemma_checksum_round_trip(body);
    encoding_laws::lemma_body_size(h, g.nodes);
    let rb = encoding::records_bytes(g.nodes);
    bytes::lemma_u32_le(crate::crc::crc32_of(body));
    assert(b.len() == 4 + body.len());
    let prefix = b.take(29);
    let tail = prefix.subrange(4, 29);
    let hb = encoding::header_bytes(h);
    encoding_laws::lemma_header_round_trip(h, Seq::empty());
    assert(hb + Seq::<u8>::empty() =~= hb);
    assert(hb.len() == 25) by {
        encoding_laws::lemma_header_len(h);
    }
    assert(tail =~= hb);
    let records = b.len() - 29;
    let min = encoding::min_record_size(h.dim);
    assert(h.node_count <= records / min) by (nonlinear_arith)
        requires
            h.node_count * min <= records,
            min > 0,
    ;
    assert(0 <= h.node_count * encoding::node_footprint(h) <= u64::MAX) by {
        let n = h.node_count as int;
        let per = encoding::node_footprint(h);
        assert(0 <= n * per <= 0xffff_ffff * 0x400_0000) by (nonlinear_arith)
            requires
                0 <= n <= 0xffff_ffff,
                0 <= per <= 0x400_0000,
        ;
    }
    let max = h.node_count * encoding::max_record_size(h);
    assert(records <= max);
    assert(0 <= max <= 0x0200_0000_0000_0000) by {
        let n = h.node_count as int;
        let per = encoding::max_record_size(h);
        assert(0 <= n * per <= 0xffff_ffff * 0x11f_ffff) by (nonlinear_arith)
            requires
                0 <= n <= 0xffff_ffff,
                0 <= per <= 0x11f_ffff,
        ;
    }
    assert(encoding::header_fault(h) is None);
    assert(plan_fault(budget, b.len() as u64, h, ef_search_default) is None);
    assert(b.len() <= 29 + rest_cap(budget, h));
}

} // verus!
