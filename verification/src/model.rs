//! What an index is, and what its operations do, as contracts speak of it.
//!
//! A handle, the pages and the log make up a [`World`]. Every step of an
//! operation is a function from a world to a world and an answer: where the
//! answer is an error, the world is what the steps before left.

use vstd::prelude::*;

use crate::apply;
use crate::dir;
use crate::dir::DIR_ENTRIES_PER_PAGE;
use crate::error::HnswError;
use crate::fault::IndexFault;
use crate::fault::Reason;
use crate::fault::StorageFault;
use crate::graph;
use crate::graph::Metric;
use crate::graph::NeighborSelection;
use crate::meta;
use crate::meta::ExpectedParams;
use crate::meta::MetaParams;
use crate::node;
use crate::node::NodeGeometry;
use crate::page;
use crate::page::PAGE_TYPE_META;
use crate::page::PAGE_TYPE_NODE;
use crate::paged;
use crate::params;
use crate::params::HnswParams;
use crate::params::NodeId;
use crate::redo;
use crate::rng;
use crate::storage;
use crate::storage::Lsn;
use crate::storage::PageId;
use crate::storage::Payload;
use crate::storage::PayloadView;
use crate::storage::PreImageView;
use crate::storage::RecordView;
use crate::text::Piece;

verus! {

/// A point in the log that an insertion passes.
#[derive(Debug, Clone, Copy, PartialEq, Eq, Structural)]
#[allow(inconsistent_fields)]
pub enum ProbeMark {
    /// A fresh node page is logged.
    NodePageInit,
    /// A fresh directory page is logged.
    DirPageInit,
    /// The fresh directory page is linked.
    DirLink,
    /// The entry is created.
    NodeInit,
    /// The entry's place is published.
    DirAppend,
    /// A neighbor's list names the new node.
    NeighborEdge {
        /// The list's level.
        level: u8,
        /// Whether the list had to be shrunk.
        shrank: bool,
    },
    /// A list of the new node is written.
    OwnList {
        /// The list's level.
        level: u8,
    },
    /// The entry point is replaced.
    MetaUpdate,
    /// The entry is live.
    PublishLive,
}

impl ProbeMark {
    /// The pieces of the mark's name.
    pub open spec fn parts(self) -> Seq<Piece> {
        match self {
            ProbeMark::NodePageInit => seq![Piece::Lit("NodePageInit")],
            ProbeMark::DirPageInit => seq![Piece::Lit("DirPageInit")],
            ProbeMark::DirLink => seq![Piece::Lit("DirLink")],
            ProbeMark::NodeInit => seq![Piece::Lit("NodeInit")],
            ProbeMark::DirAppend => seq![Piece::Lit("DirAppend")],
            ProbeMark::NeighborEdge { level, shrank } => seq![
                Piece::Lit("NeighborEdge { level: "),
                Piece::Num(level as u64),
                Piece::Lit(
                    if shrank {
                        ", shrank: true }"
                    } else {
                        ", shrank: false }"
                    },
                ),
            ],
            ProbeMark::OwnList { level } => seq![
                Piece::Lit("OwnList { level: "),
                Piece::Num(level as u64),
                Piece::Lit(" }"),
            ],
            ProbeMark::MetaUpdate => seq![Piece::Lit("MetaUpdate")],
            ProbeMark::PublishLive => seq![Piece::Lit("PublishLive")],
        }
    }

    /// The pieces of the mark's name.
    pub fn pieces(&self) -> (r: Vec<Piece>)
        ensures
            r@ == self.parts(),
    {
        let r: Vec<Piece> = match *self {
            ProbeMark::NodePageInit => vec![Piece::Lit("NodePageInit")],
            ProbeMark::DirPageInit => vec![Piece::Lit("DirPageInit")],
            ProbeMark::DirLink => vec![Piece::Lit("DirLink")],
            ProbeMark::NodeInit => vec![Piece::Lit("NodeInit")],
            ProbeMark::DirAppend => vec![Piece::Lit("DirAppend")],
            ProbeMark::NeighborEdge { level, shrank } => vec![
                Piece::Lit("NeighborEdge { level: "),
                Piece::Num(level as u64),
                Piece::Lit(
                    if shrank {
                        ", shrank: true }"
                    } else {
                        ", shrank: false }"
                    },
                ),
            ],
            ProbeMark::OwnList { level } => vec![
                Piece::Lit("OwnList { level: "),
                Piece::Num(level as u64),
                Piece::Lit(" }"),
            ],
            ProbeMark::MetaUpdate => vec![Piece::Lit("MetaUpdate")],
            ProbeMark::PublishLive => vec![Piece::Lit("PublishLive")],
        };
        assert(r@ =~= self.parts());
        r
    }
}

/// The probe, as contracts speak of it.
pub struct ProbeView {
    /// The marks that are kept.
    pub marks: Seq<ProbeMark>,
    /// Where an insertion is to stop.
    pub crash_after: Option<usize>,
    /// Whether marks are kept without a stop.
    pub logging: bool,
}

/// A handle, as contracts speak of it.
pub struct IndexView {
    /// The meta page.
    pub meta_page_id: PageId,
    /// The directory's first page.
    pub dir_head: PageId,
    /// The parameters.
    pub params: MetaParams,
    /// The number of nodes, which is the next node id.
    pub hwm: u64,
    /// The state of the level draw.
    pub rng: Seq<u64>,
    /// The directory's pages in order.
    pub dir_pages: Seq<PageId>,
    /// The node page that entries are appended to.
    pub current_node_page: Option<PageId>,
    /// The probe.
    pub probe: ProbeView,
}

/// What every handle keeps: parameters that a meta page may hold, a directory
/// with a first page, and node ids that fit their type.
pub open spec fn index_ok(ix: IndexView) -> bool {
    &&& meta::valid(ix.params)
    &&& ix.dir_head == ix.params.dir_head
    &&& ix.dir_pages.len() >= 1
    &&& ix.hwm <= u32::MAX
}

/// The pages and the log, as contracts speak of them.
pub struct Disk {
    /// The pages.
    pub pages: Seq<Seq<u8>>,
    /// The log.
    pub log: Seq<RecordView>,
    /// How many records are durable.
    pub durable: u64,
    /// The page images that stand between the records.
    pub images: Seq<PreImageView>,
    /// The last checkpoint.
    pub checkpoint: Lsn,
}

/// A handle, the pages and the log.
pub struct World {
    /// The handle.
    pub index: IndexView,
    /// The pages and the log.
    pub disk: Disk,
}

/// The geometry of the index's entries.
pub open spec fn geometry(q: MetaParams) -> NodeGeometry {
    NodeGeometry { dim: q.dim, m: q.m, m_max0: q.m_max0 }
}

// ---------------------------------------------------------------------
// Logging and allocating.
// ---------------------------------------------------------------------

/// The log with a record at its end, and the record's position.
pub open spec fn appended(
    log: Seq<RecordView>,
    payload: PayloadView,
    encode: &'static str,
    append: &'static str,
) -> (Seq<RecordView>, Result<Lsn, HnswError>) {
    match storage::payload_fault(payload) {
        Some(fault) => (log, Err(HnswError::Storage { context: encode, fault })),
        None => match storage::append_fault(log, payload) {
            Some(fault) => (log, Err(HnswError::Storage { context: append, fault })),
            None => (
                log.push(storage::utility_record(log, payload)),
                Ok(storage::next_lsn(log)),
            ),
        },
    }
}

/// The disk with a record at the end of its log, and the record's position.
/// The image of the page that the record changes stands ahead of it, if no
/// record has touched the page since the checkpoint.
pub open spec fn logged(
    d: Disk,
    payload: PayloadView,
    encode: &'static str,
    append: &'static str,
) -> (Disk, Result<Lsn, HnswError>) {
    let (log, r) = appended(d.log, payload, encode, append);
    let id = redo::target_of(payload).0;
    let images = if r is Ok {
        storage::imaged(d.images, d.checkpoint, d.log, id, d.pages[id.0 as int])
    } else {
        d.images
    };
    (Disk { log, images, ..d }, r)
}

/// The disk with the page `id` replaced, which takes a record's position.
pub open spec fn put(d: Disk, id: PageId, p: Seq<u8>, lsn: Lsn) -> Disk {
    Disk { pages: d.pages.update(id.0 as int, storage::with_lsn(p, lsn)), ..d }
}

/// The disk with one more page, initialized to `image` and logged, and the
/// page's number.
pub open spec fn allocated(d: Disk, image: Seq<u8>, context: &'static str) -> (
    Disk,
    Result<PageId, HnswError>,
) {
    if d.pages.len() >= storage::INVALID_PAGE {
        (
            d,
            Err(
                HnswError::Storage {
                    context,
                    fault: StorageFault::StoreFull,
                },
            ),
        )
    } else {
        let id = PageId(d.pages.len() as u64);
        let payload = Payload::FullPageImage { page_id: id, image };
        let d1 = Disk { pages: d.pages.push(image), ..d };
        match appended(d.log, payload, "FPI encode", "log_page_init WAL append") {
            (_, Err(e)) => (d1, Err(e)),
            (log, Ok(lsn)) => (
                Disk { pages: d.pages.push(storage::with_lsn(image, lsn)), log, ..d },
                Ok(id),
            ),
        }
    }
}

// ---------------------------------------------------------------------
// The steps of an insertion up to the directory.
// ---------------------------------------------------------------------

/// The error at the probe's stop.
pub open spec fn stopped(marks: usize, mark: ProbeMark) -> HnswError {
    HnswError::InvalidOperation(Reason::Index(IndexFault::CrashProbe { marks, mark }))
}

/// The world past a mark. Without a stop and without logging nothing happens.
/// At the stop every record becomes durable and the insertion fails.
pub open spec fn marked(w: World, mark: ProbeMark) -> (World, Result<(), HnswError>) {
    let probe = w.index.probe;
    if probe.crash_after is None && !probe.logging {
        (w, Ok(()))
    } else {
        let marks = probe.marks.push(mark);
        let index = IndexView { probe: ProbeView { marks, ..probe }, ..w.index };
        if probe.crash_after is Some && probe.crash_after->0 == marks.len() {
            (
                World { index, disk: Disk { durable: w.disk.log.len() as u64, ..w.disk } },
                Err(stopped(probe.crash_after->0, mark)),
            )
        } else {
            (World { index, disk: w.disk }, Ok(()))
        }
    }
}

/// The world past a mark, and `value` where the insertion goes on.
pub open spec fn marked_with<T>(w: World, mark: ProbeMark, value: T) -> (
    World,
    Result<T, HnswError>,
) {
    match marked(w, mark) {
        (w1, Err(e)) => (w1, Err(e)),
        (w1, Ok(_)) => (w1, Ok(value)),
    }
}

/// The world with a fresh node page to append to.
pub open spec fn node_page_added(w: World) -> (World, Result<PageId, HnswError>) {
    match allocated(
        w.disk,
        page::blank_page(PAGE_TYPE_NODE),
        "alloc_node_page: allocate",
    ) {
        (disk, Err(e)) => (World { disk, ..w }, Err(e)),
        (disk, Ok(id)) => marked_with(
            World { index: IndexView { current_node_page: Some(id), ..w.index }, disk },
            ProbeMark::NodePageInit,
            id,
        ),
    }
}

/// The first step: the node page that has room for an entry of `len` bytes.
#[verifier::opaque]
pub open spec fn node_page_ready(w: World, len: usize) -> (World, Result<PageId, HnswError>) {
    match w.index.current_node_page {
        None => node_page_added(w),
        Some(id) => match storage::fetched(w.disk.pages, id) {
            Err(fault) => (
                w,
                Err(HnswError::Storage { context: "insert: pin node page", fault }),
            ),
            Ok(p) => if apply::selected(p, len) is Ok {
                (w, Ok(id))
            } else {
                node_page_added(w)
            },
        },
    }
}

/// The world with the fresh directory page `next` linked behind `tail`, whose
/// content is `p`.
pub open spec fn dir_page_linked(w: World, tail: PageId, p: Seq<u8>, next: PageId) -> (
    World,
    Result<PageId, HnswError>,
) {
    match logged(
        w.disk,
        Payload::DirLink { old_tail_page: tail, next_page: next },
        "insert: encode DirLink",
        "insert: WAL append DirLink",
    ) {
        (disk, Err(e)) => (World { disk, ..w }, Err(e)),
        (disk, Ok(lsn)) => match marked(
            World { disk: put(disk, tail, apply::dir_linked(p, next), lsn), ..w },
            ProbeMark::DirLink,
        ) {
            (w1, Err(e)) => (w1, Err(e)),
            (w1, Ok(_)) => (
                World {
                    index: IndexView { dir_pages: w1.index.dir_pages.push(next), ..w1.index },
                    ..w1
                },
                Ok(next),
            ),
        },
    }
}

/// The second step: the directory page that has room for a place.
#[verifier::opaque]
pub open spec fn dir_tail_ready(w: World) -> (World, Result<PageId, HnswError>) {
    let tail = w.index.dir_pages.last();
    match storage::fetched(w.disk.pages, tail) {
        Err(fault) => (
            w,
            Err(HnswError::Storage { context: "insert: pin directory tail", fault }),
        ),
        Ok(p) => if page::spec_dir_count(p) != DIR_ENTRIES_PER_PAGE {
            (w, Ok(tail))
        } else {
            match allocated(
                w.disk,
                page::blank_dir_page(w.index.dir_pages.len() as u64),
                "alloc_dir_page: allocate",
            ) {
                (disk, Err(e)) => (World { disk, ..w }, Err(e)),
                (disk, Ok(next)) => match marked(World { disk, ..w }, ProbeMark::DirPageInit) {
                    (w1, Err(e)) => (w1, Err(e)),
                    (w1, Ok(_)) => dir_page_linked(w1, tail, p, next),
                },
            }
        },
    }
}

/// The third step: the entry on the page `id`, and its slot.
#[verifier::opaque]
pub open spec fn entry_created(
    w: World,
    id: PageId,
    node_id: u32,
    level: u8,
    vector: Seq<u32>,
) -> (World, Result<u16, HnswError>) {
    let q = w.index.params;
    let geo = geometry(q);
    match storage::fetched(w.disk.pages, id) {
        Err(fault) => (
            w,
            Err(HnswError::Storage { context: "insert: pin_mut node page", fault }),
        ),
        Ok(p) => match apply::selected(p, geo.size(level) as usize) {
            Err(e) => (w, Err(e)),
            Ok(slot) => match logged(
                w.disk,
                Payload::NodeInit {
                    meta_page_id: w.index.meta_page_id,
                    page_id: id,
                    slot_id: slot,
                    node_id,
                    level,
                    dim: q.dim,
                    vector,
                },
                "insert: encode NodeInit",
                "insert: WAL append NodeInit",
            ) {
                (disk, Err(e)) => (World { disk, ..w }, Err(e)),
                (disk, Ok(lsn)) => match apply::node_applied(p, slot, level, geo, vector) {
                    Err(e) => (World { disk, ..w }, Err(e)),
                    Ok(r) => marked_with(
                        World { disk: put(disk, id, r, lsn), ..w },
                        ProbeMark::NodeInit,
                        slot,
                    ),
                },
            },
        },
    }
}

/// The fourth step: the entry's place on the directory page `tail`, and one
/// more node.
#[verifier::opaque]
pub open spec fn place_published(
    w: World,
    tail: PageId,
    node_id: u32,
    id: PageId,
    slot: u16,
) -> (World, Result<(), HnswError>) {
    match storage::fetched(w.disk.pages, tail) {
        Err(fault) => (
            w,
            Err(HnswError::Storage { context: "insert: pin_mut directory tail", fault }),
        ),
        Ok(p) => match logged(
            w.disk,
            Payload::DirAppend {
                dir_tail_page: tail,
                node_id,
                target_page: id,
                target_slot: slot,
            },
            "insert: encode DirAppend",
            "insert: WAL append DirAppend",
        ) {
            (disk, Err(e)) => (World { disk, ..w }, Err(e)),
            (disk, Ok(lsn)) => match apply::dir_appended(p, node_id, id, slot) {
                Err(e) => (World { disk, ..w }, Err(e)),
                Ok((_, r)) => match marked(
                    World { disk: put(disk, tail, r, lsn), ..w },
                    ProbeMark::DirAppend,
                ) {
                    (w1, Err(e)) => (w1, Err(e)),
                    (w1, Ok(_)) => (
                        World {
                            index: IndexView { hwm: (w1.index.hwm + 1) as u64, ..w1.index },
                            ..w1
                        },
                        Ok(()),
                    ),
                },
            },
        },
    }
}

/// An insertion whose entry is in the directory and not live yet.
#[derive(Debug, Clone, Copy, PartialEq, Eq, Structural)]
pub struct PendingInsert {
    /// The new node.
    pub node_id: NodeId,
    /// Its top level.
    pub level: u8,
    /// The page of its entry.
    pub page_id: PageId,
    /// The slot of its entry.
    pub slot: u16,
}

/// What every pending insertion keeps: a node id that is not the last one,
/// and a level that a draw can give.
pub open spec fn pending_ok(ix: IndexView, pending: PendingInsert) -> bool {
    &&& pending.node_id.0 < params::INVALID_NODE
    &&& pending.level <= rng::top_level(ix.params.m as nat)
}

/// Why `vector` cannot be inserted, if it cannot; the checks in this order.
pub open spec fn insert_fault(ix: IndexView, vector: Seq<u32>) -> Option<HnswError> {
    if vector.len() != ix.params.dim {
        Some(
            HnswError::InvalidArgument(
                Reason::Index(
                    IndexFault::VectorLen {
                        what: "insert: vector",
                        len: vector.len() as usize,
                        dim: ix.params.dim,
                    },
                ),
            ),
        )
    } else {
        match graph::vector_check(ix.params.metric, vector) {
            Err(e) => Some(e),
            Ok(_) => if ix.hwm == u32::MAX {
                Some(HnswError::InvalidOperation(Reason::Index(IndexFault::NodeIdSpace)))
            } else {
                None
            },
        }
    }
}

/// The world with the next level drawn, and the level.
pub open spec fn level_drawn(w: World) -> (World, u8) {
    let (level, rng) = rng::level_draw(w.index.rng, w.index.params.m);
    (World { index: IndexView { rng, ..w.index }, ..w }, level as u8)
}

/// The steps up to the fourth.
#[verifier::opaque]
pub open spec fn begun(w: World, vector: Seq<u32>) -> (World, Result<PendingInsert, HnswError>) {
    match insert_fault(w.index, vector) {
        Some(e) => (w, Err(e)),
        None => {
            let node_id = w.index.hwm as u32;
            let (w1, level) = level_drawn(w);
            let len = geometry(w.index.params).size(level) as usize;
            match node_page_ready(w1, len) {
                (w2, Err(e)) => (w2, Err(e)),
                (w2, Ok(id)) => match dir_tail_ready(w2) {
                    (w3, Err(e)) => (w3, Err(e)),
                    (w3, Ok(tail)) => match entry_created(w3, id, node_id, level, vector) {
                        (w4, Err(e)) => (w4, Err(e)),
                        (w4, Ok(slot)) => match place_published(w4, tail, node_id, id, slot) {
                            (w5, Err(e)) => (w5, Err(e)),
                            (w5, Ok(_)) => (
                                w5,
                                Ok(
                                    PendingInsert {
                                        node_id: NodeId(node_id),
                                        level,
                                        page_id: id,
                                        slot,
                                    },
                                ),
                            ),
                        },
                    },
                },
            }
        },
    }
}

/// The handle `b` is `a` further on: its places are the same, and its
/// directory has the pages of `a` and perhaps more behind them.
pub open spec fn further(a: IndexView, b: IndexView) -> bool {
    &&& b.meta_page_id == a.meta_page_id
    &&& b.dir_head == a.dir_head
    &&& b.params == a.params
    &&& a.dir_pages.len() <= b.dir_pages.len()
    &&& b.dir_pages.take(a.dir_pages.len() as int) == a.dir_pages
}

/// The first step keeps the handle's places, its number of nodes and its
/// directory.
pub proof fn lemma_node_page_ready_keeps(w: World, len: usize)
    ensures
        ({
            let b = node_page_ready(w, len).0.index;
            &&& further(w.index, b)
            &&& b.hwm == w.index.hwm
            &&& b.rng == w.index.rng
            &&& b.dir_pages == w.index.dir_pages
        }),
{
    reveal(node_page_ready);
    assert(w.index.dir_pages.take(w.index.dir_pages.len() as int) =~= w.index.dir_pages);
}

/// The second step keeps the handle's places and its number of nodes.
pub proof fn lemma_dir_tail_ready_keeps(w: World)
    ensures
        ({
            let b = dir_tail_ready(w).0.index;
            &&& further(w.index, b)
            &&& b.hwm == w.index.hwm
            &&& b.rng == w.index.rng
            &&& b.current_node_page == w.index.current_node_page
        }),
{
    reveal(dir_tail_ready);
    let a = w.index.dir_pages;
    assert(a.take(a.len() as int) =~= a);
    assert forall|id: PageId| #[trigger] a.push(id).take(a.len() as int) == a by {
        assert(a.push(id).take(a.len() as int) =~= a);
    }
}

/// The third step changes nothing of the handle but the probe.
pub proof fn lemma_entry_created_keeps(
    w: World,
    id: PageId,
    node_id: u32,
    level: u8,
    vector: Seq<u32>,
)
    ensures
        ({
            let b = entry_created(w, id, node_id, level, vector).0.index;
            b == IndexView { probe: b.probe, ..w.index }
        }),
{
    reveal(entry_created);
}

/// The fourth step adds one node and changes nothing else of the handle but
/// the probe.
pub proof fn lemma_place_published_keeps(w: World, tail: PageId, node_id: u32, id: PageId, slot: u16)
    requires
        w.index.hwm < u32::MAX,
    ensures
        ({
            let (w1, r) = place_published(w, tail, node_id, id, slot);
            let b = w1.index;
            let hwm = if r is Ok {
                (w.index.hwm + 1) as u64
            } else {
                w.index.hwm
            };
            b == IndexView { probe: b.probe, hwm, ..w.index }
        }),
{
    reveal(place_published);
}

/// The steps up to the fourth keep what every handle keeps, and draw at most
/// one level. Where they succeed, they add one node, whose id is the old
/// number of nodes.
pub proof fn lemma_begun_keeps(w: World, vector: Seq<u32>)
    requires
        index_ok(w.index),
    ensures
        ({
            let (w1, r) = begun(w, vector);
            &&& further(w.index, w1.index)
            &&& index_ok(w1.index)
            &&& r matches Ok(pending) ==> {
                &&& pending_ok(w1.index, pending)
                &&& pending.node_id.0 == w.index.hwm
                &&& pending.level == rng::level_draw(w.index.rng, w.index.params.m).0
                &&& w1.index.hwm == w.index.hwm + 1
                &&& w1.index.rng == rng::level_draw(w.index.rng, w.index.params.m).1
            }
            &&& r is Err ==> w1.index.hwm == w.index.hwm
            &&& insert_fault(w.index, vector) is Some ==> w1 == w
        }),
{
    reveal(begun);
    let a = w.index.dir_pages;
    assert(a.take(a.len() as int) =~= a);
    if insert_fault(w.index, vector) is None {
        rng::lemma_level_draw_bound(w.index.rng, w.index.params.m);
        let node_id = w.index.hwm as u32;
        let (w1, level) = level_drawn(w);
        let len = geometry(w.index.params).size(level) as usize;
        lemma_node_page_ready_keeps(w1, len);
        let (w2, r2) = node_page_ready(w1, len);
        if let Ok(id) = r2 {
            lemma_dir_tail_ready_keeps(w2);
            let (w3, r3) = dir_tail_ready(w2);
            if let Ok(tail) = r3 {
                lemma_entry_created_keeps(w3, id, node_id, level, vector);
                let (w4, r4) = entry_created(w3, id, node_id, level, vector);
                if let Ok(slot) = r4 {
                    lemma_place_published_keeps(w4, tail, node_id, id, slot);
                }
            }
        }
    }
}

// ---------------------------------------------------------------------
// Edges, the entry point and the end of an insertion.
// ---------------------------------------------------------------------

/// Where `x` belongs in an ascending list: behind the words below it.
pub open spec fn rank(list: Seq<u32>, x: u32) -> nat
    decreases list.len(),
{
    if list.len() == 0 || list[0] >= x {
        0
    } else {
        1 + rank(list.skip(1), x)
    }
}

/// How many neighbors a node of the index can have on `level`.
pub open spec fn level_cap(q: MetaParams, level: u8) -> u16 {
    if level == 0 {
        q.m_max0
    } else {
        q.m
    }
}

/// A neighbor's list with the new node in it.
pub struct EdgeView {
    /// The page of the neighbor's entry.
    pub page_id: PageId,
    /// The slot of the neighbor's entry.
    pub slot: u16,
    /// The list, with the new node in its place.
    pub list: Seq<u32>,
    /// Whether the list is longer than its capacity.
    pub over: bool,
}

/// The list of the neighbor `nb` on `level` with the new node in it.
pub open spec fn edge_planned(w: World, node_id: u32, nb: u32, level: u8) -> Result<
    EdgeView,
    HnswError,
> {
    let q = w.index.params;
    match paged::resolved(w.disk.pages, w.index.dir_pages, nb) {
        Err(e) => Err(e),
        Ok((page_id, slot)) => match storage::fetched(w.disk.pages, page_id) {
            Err(fault) => Err(HnswError::Storage { context: "insert: pin neighbor page", fault }),
            Ok(p) => match apply::neighbors_of(p, slot, geometry(q), level) {
                Err(e) => Err(e),
                Ok(old) => {
                    let at = rank(old, node_id) as int;
                    if at < old.len() && old[at] == node_id {
                        Err(
                            HnswError::Corrupted(
                                Reason::Index(
                                    IndexFault::DuplicateEdge { from: nb, to: node_id, level },
                                ),
                            ),
                        )
                    } else {
                        let list = old.insert(at, node_id);
                        Ok(
                            EdgeView {
                                page_id,
                                slot,
                                list,
                                over: list.len() > level_cap(q, level),
                            },
                        )
                    }
                },
            },
        },
    }
}

/// The world with `list` as the list on `level` of the entry of node `owner`,
/// which stands in the slot `slot` of the page `id`.
#[verifier::opaque]
pub open spec fn list_written(
    w: World,
    id: PageId,
    slot: u16,
    owner: u32,
    level: u8,
    list: Seq<u32>,
    contexts: (&'static str, &'static str, &'static str),
    mark: ProbeMark,
) -> (World, Result<(), HnswError>) {
    match storage::fetched(w.disk.pages, id) {
        Err(fault) => (w, Err(HnswError::Storage { context: contexts.0, fault })),
        Ok(p) => match logged(
            w.disk,
            Payload::SetNeighbors {
                meta_page_id: w.index.meta_page_id,
                page_id: id,
                slot_id: slot,
                node_id: owner,
                level,
                neighbors: list,
            },
            contexts.1,
            contexts.2,
        ) {
            (disk, Err(e)) => (World { disk, ..w }, Err(e)),
            (disk, Ok(lsn)) => match apply::neighbors_set(
                p,
                slot,
                geometry(w.index.params),
                level,
                list,
            ) {
                Err(e) => (World { disk, ..w }, Err(e)),
                Ok(r) => marked(World { disk: put(disk, id, r, lsn), ..w }, mark),
            },
        },
    }
}

/// The fifth step for one neighbor: `list` becomes its list.
pub open spec fn edge_written(w: World, plan: EdgeView, nb: u32, level: u8, list: Seq<u32>) -> (
    World,
    Result<(), HnswError>,
) {
    list_written(
        w,
        plan.page_id,
        plan.slot,
        nb,
        level,
        list,
        (
            "insert: pin_mut neighbor page",
            "insert: encode SetNeighbors",
            "insert: WAL append SetNeighbors",
        ),
        ProbeMark::NeighborEdge { level, shrank: plan.over },
    )
}

/// The list that a node is to have on `level`; none where `own` does not go
/// that far.
pub open spec fn own_list(own: Seq<Seq<u32>>, level: int) -> Seq<u32> {
    if level < own.len() {
        own[level]
    } else {
        Seq::empty()
    }
}

/// The sixth step: the new node's lists on its first `n` levels. An empty
/// list is what the fresh entry has, and is not written.
pub open spec fn own_lists_written(
    w: World,
    pending: PendingInsert,
    own: Seq<Seq<u32>>,
    n: nat,
) -> (World, Result<(), HnswError>)
    decreases n,
{
    if n == 0 {
        (w, Ok(()))
    } else {
        match own_lists_written(w, pending, own, (n - 1) as nat) {
            (w1, Err(e)) => (w1, Err(e)),
            (w1, Ok(_)) => {
                let list = own_list(own, n - 1);
                if list.len() == 0 {
                    (w1, Ok(()))
                } else {
                    list_written(
                        w1,
                        pending.page_id,
                        pending.slot,
                        pending.node_id.0,
                        (n - 1) as u8,
                        list,
                        (
                            "insert: pin_mut own node page",
                            "insert: encode own SetNeighbors",
                            "insert: WAL append own SetNeighbors",
                        ),
                        ProbeMark::OwnList { level: (n - 1) as u8 },
                    )
                }
            },
        }
    }
}

/// Whether the graph has no node that can be searched from.
pub open spec fn empty_graph(ix: IndexView) -> bool {
    ix.params.entry_point == params::INVALID_NODE
}

/// How many levels the new node shares with the graph.
pub open spec fn shared_levels(ix: IndexView, pending: PendingInsert) -> nat {
    if empty_graph(ix) {
        0
    } else if pending.level < ix.params.max_level {
        (pending.level + 1) as nat
    } else {
        (ix.params.max_level + 1) as nat
    }
}

/// The parameters with the new node as entry point.
pub open spec fn with_entry_point(q: MetaParams, pending: PendingInsert) -> MetaParams {
    MetaParams { entry_point: pending.node_id.0, max_level: pending.level, ..q }
}

/// The seventh step: the new node becomes the entry point if it stands above
/// the old one or is the first.
#[verifier::opaque]
pub open spec fn entry_point_raised(w: World, pending: PendingInsert) -> (
    World,
    Result<(), HnswError>,
) {
    if !empty_graph(w.index) && pending.level <= w.index.params.max_level {
        (w, Ok(()))
    } else {
        let id = w.index.meta_page_id;
        match storage::fetched(w.disk.pages, id) {
            Err(fault) => (
                w,
                Err(HnswError::Storage { context: "insert: pin_mut meta page", fault }),
            ),
            Ok(p) => match logged(
                w.disk,
                Payload::MetaUpdate {
                    meta_page_id: id,
                    entry_point: pending.node_id.0,
                    max_level: pending.level,
                },
                "insert: encode MetaUpdate",
                "insert: WAL append MetaUpdate",
            ) {
                (disk, Err(e)) => (World { disk, ..w }, Err(e)),
                (disk, Ok(lsn)) => match marked(
                    World {
                        disk: put(
                            disk,
                            id,
                            meta::meta_applied(p, pending.node_id.0, pending.level),
                            lsn,
                        ),
                        ..w
                    },
                    ProbeMark::MetaUpdate,
                ) {
                    (w1, Err(e)) => (w1, Err(e)),
                    (w1, Ok(_)) => (
                        World {
                            index: IndexView {
                                params: with_entry_point(w1.index.params, pending),
                                ..w1.index
                            },
                            ..w1
                        },
                        Ok(()),
                    ),
                },
            },
        }
    }
}

/// The last step: the entry becomes live.
#[verifier::opaque]
pub open spec fn entry_published(w: World, pending: PendingInsert) -> (
    World,
    Result<(), HnswError>,
) {
    let id = pending.page_id;
    let dim = w.index.params.dim;
    match storage::fetched(w.disk.pages, id) {
        Err(fault) => (
            w,
            Err(HnswError::Storage { context: "insert: pin_mut node page", fault }),
        ),
        Ok(p) => match logged(
            w.disk,
            Payload::PublishLive {
                meta_page_id: w.index.meta_page_id,
                page_id: id,
                slot_id: pending.slot,
                node_id: pending.node_id.0,
                dim,
            },
            "insert: encode PublishLive",
            "insert: WAL append PublishLive",
        ) {
            (disk, Err(e)) => (World { disk, ..w }, Err(e)),
            (disk, Ok(lsn)) => match apply::live_published(p, pending.slot, dim) {
                Err(e) => (World { disk, ..w }, Err(e)),
                Ok(r) => marked(
                    World { disk: put(disk, id, r, lsn), ..w },
                    ProbeMark::PublishLive,
                ),
            },
        },
    }
}

/// The steps from the sixth on, after which every record is durable.
#[verifier::opaque]
pub open spec fn finished(w: World, pending: PendingInsert, own: Seq<Seq<u32>>) -> (
    World,
    Result<NodeId, HnswError>,
) {
    match own_lists_written(w, pending, own, shared_levels(w.index, pending)) {
        (w1, Err(e)) => (w1, Err(e)),
        (w1, Ok(_)) => match entry_point_raised(w1, pending) {
            (w2, Err(e)) => (w2, Err(e)),
            (w2, Ok(_)) => match entry_published(w2, pending) {
                (w3, Err(e)) => (w3, Err(e)),
                (w3, Ok(_)) => (
                    World {
                        disk: Disk { durable: w3.disk.log.len() as u64, ..w3.disk },
                        ..w3
                    },
                    Ok(pending.node_id),
                ),
            },
        },
    }
}

/// Writing a list changes nothing of the handle but the probe.
pub proof fn lemma_list_written_keeps(
    w: World,
    id: PageId,
    slot: u16,
    owner: u32,
    level: u8,
    list: Seq<u32>,
    contexts: (&'static str, &'static str, &'static str),
    mark: ProbeMark,
)
    ensures
        ({
            let b = list_written(w, id, slot, owner, level, list, contexts, mark).0.index;
            b == IndexView { probe: b.probe, ..w.index }
        }),
{
    reveal(list_written);
}

/// Writing the new node's lists changes nothing of the handle but the probe.
pub proof fn lemma_own_lists_written_keeps(
    w: World,
    pending: PendingInsert,
    own: Seq<Seq<u32>>,
    n: nat,
)
    ensures
        ({
            let b = own_lists_written(w, pending, own, n).0.index;
            b == IndexView { probe: b.probe, ..w.index }
        }),
    decreases n,
{
    reveal(list_written);
    if n > 0 {
        lemma_own_lists_written_keeps(w, pending, own, (n - 1) as nat);
    }
}

/// A failure on the first levels is the failure of all.
pub proof fn lemma_own_lists_fail(
    w: World,
    pending: PendingInsert,
    own: Seq<Seq<u32>>,
    n: nat,
    all: nat,
)
    requires
        n <= all,
        own_lists_written(w, pending, own, n).1 is Err,
    ensures
        own_lists_written(w, pending, own, all) == own_lists_written(w, pending, own, n),
    decreases all - n,
{
    if n < all {
        lemma_own_lists_fail(w, pending, own, n, (all - 1) as nat);
    }
}

/// The end of an insertion keeps what every handle keeps. It changes the
/// entry point and its level, to the new node's, exactly where the new node
/// stands above it or is the first; and nothing else but the probe.
pub proof fn lemma_finished_keeps(w: World, pending: PendingInsert, own: Seq<Seq<u32>>)
    requires
        index_ok(w.index),
        pending_ok(w.index, pending),
    ensures
        ({
            let (w1, r) = finished(w, pending, own);
            let b = w1.index;
            let raised = empty_graph(w.index) || pending.level > w.index.params.max_level;
            &&& index_ok(b)
            &&& b == IndexView { probe: b.probe, params: b.params, ..w.index }
            &&& b.params == w.index.params || (raised && b.params == with_entry_point(
                w.index.params,
                pending,
            ))
            &&& r is Ok && raised ==> b.params == with_entry_point(w.index.params, pending)
            &&& r matches Ok(id) ==> id == pending.node_id && w1.disk.durable
                == w1.disk.log.len() as u64
        }),
{
    reveal(entry_point_raised);
    reveal(entry_published);
    reveal(finished);
    let n = shared_levels(w.index, pending);
    rng::lemma_top_level_bound(w.index.params.m as nat);
    lemma_own_lists_written_keeps(w, pending, own, n);
}

// ---------------------------------------------------------------------
// A whole insertion.
// ---------------------------------------------------------------------

/// What is chosen on one level: the new node's neighbors, and for each of
/// them what its list is cut down to if it is over its capacity.
pub struct LevelChoice {
    /// The new node's neighbors.
    pub neighbors: Seq<u32>,
    /// The lists that are cut down, by neighbor.
    pub shrunk: Seq<Seq<u32>>,
}

/// The fifth step on one level, for its first `n` neighbors.
#[verifier::opaque]
pub open spec fn level_connected(
    w: World,
    node_id: u32,
    level: u8,
    c: LevelChoice,
    n: nat,
) -> (World, Result<(), HnswError>)
    decreases n,
{
    if n == 0 {
        (w, Ok(()))
    } else {
        match level_connected(w, node_id, level, c, (n - 1) as nat) {
            (w1, Err(e)) => (w1, Err(e)),
            (w1, Ok(_)) => {
                let nb = c.neighbors[n - 1];
                match edge_planned(w1, node_id, nb, level) {
                    Err(e) => (w1, Err(e)),
                    Ok(plan) => edge_written(
                        w1,
                        plan,
                        nb,
                        level,
                        if plan.over {
                            c.shrunk[n - 1]
                        } else {
                            plan.list
                        },
                    ),
                }
            },
        }
    }
}

/// The fifth step on the first `k` of the `shared` levels, from the highest
/// down.
pub open spec fn connected(
    w: World,
    node_id: u32,
    shared: nat,
    cs: Seq<LevelChoice>,
    k: nat,
) -> (World, Result<(), HnswError>)
    decreases k,
{
    if k == 0 {
        (w, Ok(()))
    } else {
        match connected(w, node_id, shared, cs, (k - 1) as nat) {
            (w1, Err(e)) => (w1, Err(e)),
            (w1, Ok(_)) => level_connected(
                w1,
                node_id,
                (shared - k) as u8,
                cs[k - 1],
                cs[k - 1].neighbors.len(),
            ),
        }
    }
}

/// The new node's lists, from level 0 up, after choices from the highest
/// level down.
pub open spec fn chosen_lists(cs: Seq<LevelChoice>) -> Seq<Seq<u32>> {
    Seq::new(cs.len(), |l: int| cs[cs.len() - 1 - l].neighbors)
}

/// An insertion with these choices, one per shared level.
pub open spec fn inserted(w: World, vector: Seq<u32>, cs: Seq<LevelChoice>) -> (
    World,
    Result<NodeId, HnswError>,
) {
    match begun(w, vector) {
        (w1, Err(e)) => (w1, Err(e)),
        (w1, Ok(pending)) => {
            let shared = shared_levels(w1.index, pending);
            match connected(w1, pending.node_id.0, shared, cs, cs.len()) {
                (w2, Err(e)) => (w2, Err(e)),
                (w2, Ok(_)) => finished(w2, pending, chosen_lists(cs)),
            }
        },
    }
}

/// How many levels the node that is inserted shares with the graph.
pub open spec fn shared_of(w: World, vector: Seq<u32>) -> nat {
    match begun(w, vector) {
        (w1, Ok(pending)) => shared_levels(w1.index, pending),
        _ => 0,
    }
}

/// There is a choice for every level that the new node shares with the
/// graph, or connecting fails on the last level that has one.
pub open spec fn decided(w: World, vector: Seq<u32>, cs: Seq<LevelChoice>) -> bool {
    match begun(w, vector) {
        (w1, Ok(pending)) => {
            let shared = shared_levels(w1.index, pending);
            ||| cs.len() == shared
            ||| cs.len() < shared && connected(w1, pending.node_id.0, shared, cs, cs.len()).1 is Err
        },
        _ => true,
    }
}

/// Connecting a level changes nothing of the handle but the probe.
pub proof fn lemma_level_connected_keeps(
    w: World,
    node_id: u32,
    level: u8,
    c: LevelChoice,
    n: nat,
)
    ensures
        ({
            let b = level_connected(w, node_id, level, c, n).0.index;
            b == IndexView { probe: b.probe, ..w.index }
        }),
    decreases n,
{
    reveal(level_connected);
    reveal(list_written);
    if n > 0 {
        lemma_level_connected_keeps(w, node_id, level, c, (n - 1) as nat);
    }
}

/// Connecting changes nothing of the handle but the probe.
pub proof fn lemma_connected_keeps(
    w: World,
    node_id: u32,
    shared: nat,
    cs: Seq<LevelChoice>,
    k: nat,
)
    ensures
        ({
            let b = connected(w, node_id, shared, cs, k).0.index;
            b == IndexView { probe: b.probe, ..w.index }
        }),
    decreases k,
{
    if k > 0 {
        lemma_connected_keeps(w, node_id, shared, cs, (k - 1) as nat);
        let w1 = connected(w, node_id, shared, cs, (k - 1) as nat).0;
        let c = cs[k - 1];
        lemma_level_connected_keeps(w1, node_id, (shared - k) as u8, c, c.neighbors.len());
    }
}

/// The first `n` neighbors depend on the first `n` choices alone.
pub proof fn lemma_level_connected_prefix(
    w: World,
    node_id: u32,
    level: u8,
    a: LevelChoice,
    b: LevelChoice,
    n: nat,
)
    requires
        a.neighbors == b.neighbors,
        n <= a.shrunk.len(),
        n <= b.shrunk.len(),
        forall|i: int| 0 <= i < n ==> a.shrunk[i] == b.shrunk[i],
    ensures
        level_connected(w, node_id, level, a, n) == level_connected(w, node_id, level, b, n),
    decreases n,
{
    reveal(level_connected);
    if n > 0 {
        lemma_level_connected_prefix(w, node_id, level, a, b, (n - 1) as nat);
    }
}

/// A failure at the first neighbors is the failure of the level.
pub proof fn lemma_level_connected_fails(
    w: World,
    node_id: u32,
    level: u8,
    c: LevelChoice,
    n: nat,
    all: nat,
)
    requires
        n <= all,
        level_connected(w, node_id, level, c, n).1 is Err,
    ensures
        level_connected(w, node_id, level, c, all) == level_connected(w, node_id, level, c, n),
    decreases all - n,
{
    reveal(level_connected);
    if n < all {
        lemma_level_connected_fails(w, node_id, level, c, n, (all - 1) as nat);
    }
}

/// The first levels depend on the first choices alone.
pub proof fn lemma_connected_prefix(
    w: World,
    node_id: u32,
    shared: nat,
    a: Seq<LevelChoice>,
    b: Seq<LevelChoice>,
    k: nat,
)
    requires
        k <= a.len(),
        k <= b.len(),
        forall|i: int| 0 <= i < k ==> a[i] == b[i],
    ensures
        connected(w, node_id, shared, a, k) == connected(w, node_id, shared, b, k),
    decreases k,
{
    if k > 0 {
        lemma_connected_prefix(w, node_id, shared, a, b, (k - 1) as nat);
    }
}

// ---------------------------------------------------------------------
// Search.
// ---------------------------------------------------------------------

/// A node and its distance.
#[derive(Debug, Clone, Copy, PartialEq, Eq, Structural)]
pub struct Cand {
    /// The bits of the distance, an `f64`.
    pub dist: u64,
    /// The node.
    pub id: NodeId,
}

/// What a search needs: nothing where the answer is empty, else the width of
/// its beam. The checks in this order.
pub open spec fn search_plan(ix: IndexView, query: Seq<u32>, k: usize, ef: Option<usize>) -> Result<
    Option<usize>,
    HnswError,
> {
    let width = match ef {
        Some(n) => n,
        None => ix.params.ef_search_default as usize,
    };
    if query.len() != ix.params.dim {
        Err(
            HnswError::InvalidArgument(
                Reason::Index(
                    IndexFault::VectorLen {
                        what: "search: query",
                        len: query.len() as usize,
                        dim: ix.params.dim,
                    },
                ),
            ),
        )
    } else {
        match graph::vector_check(ix.params.metric, query) {
            Err(e) => Err(e),
            Ok(_) => if width < k {
                Err(
                    HnswError::InvalidArgument(
                        Reason::Index(IndexFault::EfBelowK { ef: width, k }),
                    ),
                )
            } else if empty_graph(ix) || k == 0 {
                Ok(None)
            } else {
                Ok(Some(width))
            },
        }
    }
}

/// The first `k` of what a search finds.
pub open spec fn first_hits(found: Seq<Cand>, k: usize) -> Seq<Cand> {
    if found.len() <= k {
        found
    } else {
        found.take(k as int)
    }
}

// ---------------------------------------------------------------------
// Creating and opening.
// ---------------------------------------------------------------------

/// The parameters of a new index.
pub open spec fn new_params(
    p: HnswParams,
    dim: u16,
    metric: Metric,
    selection: NeighborSelection,
    rng_seed: u64,
    dir_head: PageId,
) -> MetaParams {
    MetaParams {
        entry_point: params::INVALID_NODE,
        max_level: 0,
        metric,
        selection,
        dim,
        m: p.spec_m(),
        m_max0: p.spec_m_max0(),
        ef_construction: p.spec_ef_construction(),
        ef_search_default: p.spec_ef_search_default(),
        rng_seed,
        dir_head,
    }
}

/// The handle on an index: its number of nodes and its directory are what its
/// pages say, and the level draw stands where that many draws leave it.
pub open spec fn handle(
    meta_page_id: PageId,
    q: MetaParams,
    hwm: u64,
    dir_pages: Seq<PageId>,
    current_node_page: Option<PageId>,
) -> IndexView {
    IndexView {
        meta_page_id,
        dir_head: q.dir_head,
        params: q,
        hwm,
        rng: rng::after_levels(rng::seeded(q.rng_seed), q.m, hwm as nat),
        dir_pages,
        current_node_page,
        probe: ProbeView { marks: Seq::empty(), crash_after: None, logging: false },
    }
}

/// The disk with a new index, and the handle on it.
pub open spec fn created(
    d: Disk,
    p: HnswParams,
    dim: u16,
    metric: Metric,
    selection: NeighborSelection,
    rng_seed: u64,
) -> (Disk, Result<IndexView, HnswError>) {
    match node::geometry_check(dim, p.spec_m(), p.spec_m_max0()) {
        Err(e) => (d, Err(e)),
        Ok(_) => match allocated(
            d,
            page::blank_dir_page(0),
            "create: allocate directory head",
        ) {
            (d1, Err(e)) => (d1, Err(e)),
            (d1, Ok(head)) => {
                let q = new_params(p, dim, metric, selection, rng_seed, head);
                match allocated(
                    d1,
                    meta::meta_written(page::blank_page(PAGE_TYPE_META), q),
                    "create: allocate meta page",
                ) {
                    (d2, Err(e)) => (d2, Err(e)),
                    (d2, Ok(id)) => (d2, Ok(handle(id, q, 0, seq![head], None))),
                }
            },
        },
    }
}

/// The disk with the entry point repaired, and the parameters: where there
/// are nodes and no entry point, the first node becomes it, with its level.
/// The checks in this order.
pub open spec fn repaired(d: Disk, meta_id: PageId, q: MetaParams, hwm: u64) -> (
    Disk,
    Result<MetaParams, HnswError>,
) {
    let l_max = rng::top_level(q.m as nat) as u8;
    if hwm == 0 || q.entry_point != params::INVALID_NODE {
        (d, Ok(q))
    } else {
        match dir::entry(d.pages[q.dir_head.0 as int], 0) {
            Err(e) => (d, Err(e)),
            Ok((id, slot)) => match storage::fetched(d.pages, id) {
                Err(fault) => (
                    d,
                    Err(
                        HnswError::Storage { context: "open-repair: pin first node page", fault },
                    ),
                ),
                Ok(p) => if storage::pd_flags(p) != PAGE_TYPE_NODE {
                    (
                        d,
                        Err(
                            HnswError::Corrupted(
                                Reason::Index(
                                    IndexFault::RepairType {
                                        page: id.0,
                                        tag: storage::pd_flags(p),
                                    },
                                ),
                            ),
                        ),
                    )
                } else {
                    match apply::state_of(p, slot, q.dim, "entry_top_level") {
                        Err(e) => (d, Err(e)),
                        Ok(b) => {
                            let top = node::state_top(b);
                            if top > l_max {
                                (
                                    d,
                                    Err(
                                        HnswError::Corrupted(
                                            Reason::Index(
                                                IndexFault::RepairLevel { top, m: q.m, l_max },
                                            ),
                                        ),
                                    ),
                                )
                            } else {
                                match logged(
                                    d,
                                    Payload::MetaUpdate {
                                        meta_page_id: meta_id,
                                        entry_point: 0,
                                        max_level: top,
                                    },
                                    "open-repair: encode MetaUpdate",
                                    "open-repair: WAL append",
                                ) {
                                    (d1, Err(e)) => (d1, Err(e)),
                                    (d1, Ok(lsn)) => (
                                        put(
                                            d1,
                                            meta_id,
                                            meta::meta_applied(
                                                d.pages[meta_id.0 as int],
                                                0,
                                                top,
                                            ),
                                            lsn,
                                        ),
                                        Ok(
                                            MetaParams {
                                                entry_point: 0,
                                                max_level: top,
                                                ..q
                                            },
                                        ),
                                    ),
                                }
                            }
                        },
                    }
                },
            },
        }
    }
}

/// The page of the last node's entry.
pub open spec fn last_node_page(pages: Seq<Seq<u8>>, dirs: Seq<PageId>, hwm: u64) -> Result<
    Option<PageId>,
    HnswError,
> {
    if hwm == 0 {
        Ok(None)
    } else {
        let last = (hwm - 1) as u64;
        let id = dirs[(last / 813) as int];
        match storage::fetched(pages, id) {
            Err(fault) => Err(
                HnswError::Storage { context: "open: pin directory page of last entry", fault },
            ),
            Ok(p) => match dir::entry(p, (last % 813) as u32) {
                Err(e) => Err(e),
                Ok((node_page, _)) => Ok(Some(node_page)),
            },
        }
    }
}

/// The disk after opening, the handle, and the warnings; the checks in this
/// order.
pub open spec fn opened(d: Disk, meta_id: PageId, e: ExpectedParams) -> (
    Disk,
    Result<(IndexView, Seq<Seq<char>>), HnswError>,
) {
    match storage::fetched(d.pages, meta_id) {
        Err(fault) => (d, Err(HnswError::Storage { context: "open: pin meta page", fault })),
        Ok(p) => match meta::meta_of(p) {
            Err(e) => (d, Err(e)),
            Ok(q) => match meta::expectation_fault(q, e) {
                Some(e) => (d, Err(e)),
                None => match dir::chain(d.pages, "open: pin directory page", q.dir_head) {
                    Err(e) => (d, Err(e)),
                    Ok((dirs, hwm)) => if q.entry_point != params::INVALID_NODE && q.entry_point
                        >= hwm {
                        (
                            d,
                            Err(
                                HnswError::Corrupted(
                                    Reason::Index(
                                        IndexFault::EntryPointRange {
                                            entry_point: q.entry_point,
                                            hwm,
                                        },
                                    ),
                                ),
                            ),
                        )
                    } else {
                        match repaired(d, meta_id, q, hwm) {
                            (d1, Err(e)) => (d1, Err(e)),
                            (d1, Ok(q1)) => match last_node_page(d1.pages, dirs, hwm) {
                                Err(e) => (d1, Err(e)),
                                Ok(current) => (
                                    d1,
                                    Ok(
                                        (
                                            handle(meta_id, q1, hwm, dirs, current),
                                            meta::warning_texts(q, e),
                                        ),
                                    ),
                                ),
                            },
                        }
                    },
                },
            },
        },
    }
}

/// A chain has a page for every entry.
pub proof fn lemma_chain_reaches(pages: Seq<Seq<u8>>, context: &'static str, head: PageId)
    requires
        head.0 != storage::INVALID_PAGE,
    ensures
        dir::chain(pages, context, head) matches Ok((dirs, hwm)) ==> {
            &&& hwm <= 813 * dirs.len()
            &&& hwm <= u32::MAX
            &&& dirs.len() >= 1
            &&& dirs[0] == head
            &&& head.0 < pages.len()
        },
{
    if let Ok((dirs, hwm)) = dir::chain(pages, context, head) {
        dir::lemma_chain_is_the_legal_chain(pages, context, head, dirs);
        let n = dirs.len() - 1;
        assert(dirs[n].0 < pages.len());
        assert(dirs[0].0 < pages.len());
        let p = pages[dirs[n].0 as int];
        assert(dir::chain_link(p, dirs[n], n as nat) is Ok);
        assert(page::spec_dir_ordinal(p) == n);
    }
}

} // verus!
