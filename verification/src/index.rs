//! An index on its pages: creation, opening, insertion and search.
//!
//! Insertion follows one order. A page is changed only after the record of
//! the change is in the log, and takes the record's position. The steps of an
//! insertion are:
//!
//! 1. a node page with room for the entry, a fresh one if need be;
//! 2. a directory page with room for the entry's place, a fresh one linked
//!    behind the tail if need be;
//! 3. the entry, not live yet;
//! 4. its place in the directory, which allocates the node id;
//! 5. the edges to the new node;
//! 6. the lists of the new node itself;
//! 7. the entry point, where the new node stands above it or is the first;
//! 8. the entry becomes live.
//!
//! An error on the way leaves what the steps before it did: every such
//! remainder can be replayed, opened and audited.
//!
//! What is near to what is decided by a [`GraphSearch`], which the caller
//! supplies: distances are floating-point numbers, and this module reads none.

use vstd::prelude::*;

use crate::apply;
use crate::audit;
use crate::audit::AuditReport;
use crate::dir;
use crate::dir::DirChainInfo;
use crate::dir::DIR_ENTRIES_PER_PAGE;
use crate::error::HnswError;
use crate::fault::IndexFault;
use crate::fault::Reason;
use crate::graph::Metric;
use crate::graph::NeighborSelection;
use crate::index_laws;
use crate::layout::NodeView;
use crate::meta;
use crate::meta::ExpectedParams;
use crate::meta::MetaParams;
use crate::model;
use crate::model::Cand;
use crate::model::Disk;
use crate::model::EdgeView;
use crate::model::IndexView;
use crate::model::LevelChoice;
use crate::model::PendingInsert;
use crate::model::ProbeMark;
use crate::model::ProbeView;
use crate::model::World;
use crate::node;
use crate::node::NodeGeometry;
use crate::open_laws;
use crate::page;
use crate::page::PAGE_TYPE_NODE;
use crate::paged;
use crate::paged::PagedGraph;
use crate::params;
use crate::params::HnswParams;
use crate::params::NodeId;
use crate::redo;
use crate::rng;
use crate::rng::Xoshiro256StarStar;
use crate::storage;
use crate::storage::Lsn;
use crate::storage::Page;
use crate::storage::PageId;
use crate::storage::PageStore;
use crate::storage::Payload;
use crate::storage::WalLog;
use crate::storage::WalPayload;
use crate::storage::PAGE_SIZE;

verus! {

// ---------------------------------------------------------------------
// The handle and what contracts see of it.
// ---------------------------------------------------------------------

/// The marks that insertions have passed, and where one is to stop.
#[derive(Debug)]
struct ProbeState {
    /// The marks, in order; kept while `logging` is on or a stop is set.
    marks: Vec<ProbeMark>,
    /// An insertion fails once this many marks are kept.
    crash_after: Option<usize>,
    /// Whether marks are kept without a stop.
    logging: bool,
}

/// A handle on one index. There is one writer per handle.
#[derive(Debug)]
pub struct HnswIndex {
    meta_page_id: PageId,
    dir_head: PageId,
    params: MetaParams,
    hwm: u64,
    rng: Xoshiro256StarStar,
    /// The directory's pages in order.
    dir_pages: Vec<PageId>,
    /// The node page that entries are appended to.
    current_node_page: Option<PageId>,
    probe: ProbeState,
}

impl View for HnswIndex {
    type V = IndexView;

    closed spec fn view(&self) -> IndexView {
        IndexView {
            meta_page_id: self.meta_page_id,
            dir_head: self.dir_head,
            params: self.params,
            hwm: self.hwm,
            rng: self.rng@,
            dir_pages: self.dir_pages@,
            current_node_page: self.current_node_page,
            probe: ProbeView {
                marks: self.probe.marks@,
                crash_after: self.probe.crash_after,
                logging: self.probe.logging,
            },
        }
    }
}

/// The pages and the log.
pub open spec fn disk(store: PageStore, log: WalLog) -> Disk {
    Disk {
        pages: store@,
        log: log@,
        durable: log.durable(),
        images: log.images(),
        checkpoint: log.checkpoint(),
    }
}

/// A handle, the pages and the log.
pub open spec fn world(index: HnswIndex, store: PageStore, log: WalLog) -> World {
    World { index: index@, disk: disk(store, log) }
}

// ---------------------------------------------------------------------
// Logging and allocating.
// ---------------------------------------------------------------------

/// Appends a record that is about to change the page `id`, and the page's
/// image ahead of it if one is due.
fn log_record(
    store: &PageStore,
    log: &mut WalLog,
    id: PageId,
    payload: WalPayload,
    encode: &'static str,
    append: &'static str,
) -> (r: Result<Lsn, HnswError>)
    requires
        id.0 < store@.len(),
        id == redo::target_of(payload@).0,
    ensures
        (disk(*store, *final(log)), r) == model::logged(
            disk(*store, *old(log)),
            payload@,
            encode,
            append,
        ),
{
    match storage::check_payload(&payload) {
        Some(fault) => {
            return Err(HnswError::Storage { context: encode, fault });
        },
        None => {},
    }
    match log.append_over(payload, id, store.get(id)) {
        Err(fault) => Err(HnswError::Storage { context: append, fault }),
        Ok(lsn) => Ok(lsn),
    }
}

/// Writes a page, which takes a record's position.
fn put_page(store: &mut PageStore, id: PageId, p: Page, lsn: Lsn)
    requires
        id.0 < old(store)@.len(),
    ensures
        final(store)@ == old(store)@.update(id.0 as int, storage::with_lsn(p@, lsn)),
{
    let mut q: Page = p;
    storage::set_page_pd_lsn(&mut q, lsn);
    store.put(id, q);
}

/// Allocates a page with the content of `image` and logs it.
fn allocate_page(
    store: &mut PageStore,
    log: &mut WalLog,
    image: Page,
    context: &'static str,
) -> (r: Result<PageId, HnswError>)
    ensures
        (disk(*final(store), *final(log)), r) == model::allocated(
            disk(*old(store), *old(log)),
            image@,
            context,
        ),
{
    let id: PageId = match store.allocate(image) {
        Err(fault) => {
            return Err(HnswError::Storage { context, fault });
        },
        Ok(id) => id,
    };
    let mut p: Page = image;
    match page::log_page_init(log, id, &mut p) {
        Err(e) => Err(e),
        Ok(_) => {
            store.put(id, p);
            proof {
                let n = old(store)@.len() as int;
                assert(old(store)@.push(image@).update(n, p@) =~= old(store)@.push(p@));
            }
            Ok(id)
        },
    }
}

/// Allocates and initializes a node page.
fn alloc_node_page(store: &mut PageStore, log: &mut WalLog) -> (r: Result<PageId, HnswError>)
    ensures
        (disk(*final(store), *final(log)), r) == model::allocated(
            disk(*old(store), *old(log)),
            page::blank_page(PAGE_TYPE_NODE),
            "alloc_node_page: allocate",
        ),
{
    let mut image: Page = [0u8; PAGE_SIZE];
    page::init_node_page(&mut image);
    allocate_page(store, log, image, "alloc_node_page: allocate")
}

/// Allocates and initializes a directory page.
fn alloc_dir_page(store: &mut PageStore, log: &mut WalLog, ordinal: u64) -> (r: Result<
    PageId,
    HnswError,
>)
    ensures
        (disk(*final(store), *final(log)), r) == model::allocated(
            disk(*old(store), *old(log)),
            page::blank_dir_page(ordinal),
            "alloc_dir_page: allocate",
        ),
{
    let mut image: Page = [0u8; PAGE_SIZE];
    page::init_dir_page(&mut image, ordinal);
    allocate_page(store, log, image, "alloc_dir_page: allocate")
}

// ---------------------------------------------------------------------
// What the steps of an insertion do.
// ---------------------------------------------------------------------

impl HnswIndex {
    /// Passes a mark.
    fn barrier(&mut self, log: &mut WalLog, mark: ProbeMark) -> (r: Result<(), HnswError>)
        ensures
            final(log)@ == old(log)@,
            final(log).images() == old(log).images(),
            final(log).checkpoint() == old(log).checkpoint(),
            forall|pages: Seq<Seq<u8>>|
                (
                    World {
                        index: final(self)@,
                        disk: (Disk {
                            pages,
                            log: final(log)@,
                            durable: final(log).durable(),
                            images: final(log).images(),
                            checkpoint: final(log).checkpoint(),
                        }),
                    },
                    r,
                ) == #[trigger] model::marked(
                    World {
                        index: old(self)@,
                        disk: (Disk {
                            pages,
                            log: old(log)@,
                            durable: old(log).durable(),
                            images: old(log).images(),
                            checkpoint: old(log).checkpoint(),
                        }),
                    },
                    mark,
                ),
    {
        if self.probe.crash_after.is_none() && !self.probe.logging {
            return Ok(());
        }
        self.probe.marks.push(mark);
        match self.probe.crash_after {
            Some(n) => {
                if self.probe.marks.len() == n {
                    log.flush();
                    return Err(
                        HnswError::InvalidOperation(
                            Reason::Index(IndexFault::CrashProbe { marks: n, mark }),
                        ),
                    );
                }
            },
            None => {},
        }
        Ok(())
    }

    /// Adds a node page to append to.
    fn add_node_page(&mut self, store: &mut PageStore, log: &mut WalLog) -> (r: Result<
        PageId,
        HnswError,
    >)
        ensures
            (world(*final(self), *final(store), *final(log)), r) == model::node_page_added(
                world(*old(self), *old(store), *old(log)),
            ),
    {
        let id: PageId = match alloc_node_page(store, log) {
            Err(e) => {
                return Err(e);
            },
            Ok(id) => id,
        };
        self.current_node_page = Some(id);
        match self.barrier(log, ProbeMark::NodePageInit) {
            Err(e) => Err(e),
            Ok(_) => Ok(id),
        }
    }

    /// Finds the node page that has room for an entry of `len` bytes.
    fn ready_node_page(&mut self, store: &mut PageStore, log: &mut WalLog, len: usize) -> (r:
        Result<PageId, HnswError>)
        ensures
            (world(*final(self), *final(store), *final(log)), r) == model::node_page_ready(
                world(*old(self), *old(store), *old(log)),
                len,
            ),
    {
        proof {
            reveal(model::node_page_ready);
        }
        match self.current_node_page {
            None => self.add_node_page(store, log),
            Some(id) => {
                let p: Page = match store.pin(id) {
                    Err(fault) => {
                        return Err(HnswError::Storage { context: "insert: pin node page", fault });
                    },
                    Ok(p) => p,
                };
                if apply::select_slot(&p, len).is_ok() {
                    return Ok(id);
                }
                self.add_node_page(store, log)
            },
        }
    }

    /// Links a fresh directory page behind the tail.
    fn link_dir_page(
        &mut self,
        store: &mut PageStore,
        log: &mut WalLog,
        tail: PageId,
        p: Page,
        next: PageId,
    ) -> (r: Result<PageId, HnswError>)
        requires
            tail.0 < old(store)@.len(),
        ensures
            (world(*final(self), *final(store), *final(log)), r) == model::dir_page_linked(
                world(*old(self), *old(store), *old(log)),
                tail,
                p@,
                next,
            ),
    {
        let payload: WalPayload = Payload::DirLink { old_tail_page: tail, next_page: next };
        let lsn: Lsn = match log_record(
            store,
            log,
            tail,
            payload,
            "insert: encode DirLink",
            "insert: WAL append DirLink",
        ) {
            Err(e) => {
                return Err(e);
            },
            Ok(lsn) => lsn,
        };
        let mut q: Page = p;
        apply::dir_link(&mut q, next);
        put_page(store, tail, q, lsn);
        match self.barrier(log, ProbeMark::DirLink) {
            Err(e) => {
                return Err(e);
            },
            Ok(_) => {},
        }
        self.dir_pages.push(next);
        Ok(next)
    }

    /// Finds the directory page that has room for a place.
    fn ready_dir_tail(&mut self, store: &mut PageStore, log: &mut WalLog) -> (r: Result<
        PageId,
        HnswError,
    >)
        requires
            model::index_ok(old(self)@),
        ensures
            (world(*final(self), *final(store), *final(log)), r) == model::dir_tail_ready(
                world(*old(self), *old(store), *old(log)),
            ),
    {
        proof {
            reveal(model::dir_tail_ready);
        }
        let tail: PageId = self.dir_pages[self.dir_pages.len() - 1];
        let p: Page = match store.pin(tail) {
            Err(fault) => {
                return Err(HnswError::Storage { context: "insert: pin directory tail", fault });
            },
            Ok(p) => p,
        };
        if page::dir_count(&p) != DIR_ENTRIES_PER_PAGE {
            return Ok(tail);
        }
        let next: PageId = match alloc_dir_page(store, log, self.dir_pages.len() as u64) {
            Err(e) => {
                return Err(e);
            },
            Ok(next) => next,
        };
        match self.barrier(log, ProbeMark::DirPageInit) {
            Err(e) => {
                return Err(e);
            },
            Ok(_) => {},
        }
        self.link_dir_page(store, log, tail, p, next)
    }

    /// Creates the entry on the page `id`.
    fn create_entry(
        &mut self,
        store: &mut PageStore,
        log: &mut WalLog,
        id: PageId,
        node_id: u32,
        level: u8,
        vector: &[u32],
    ) -> (r: Result<u16, HnswError>)
        ensures
            (world(*final(self), *final(store), *final(log)), r) == model::entry_created(
                world(*old(self), *old(store), *old(log)),
                id,
                node_id,
                level,
                vector@,
            ),
    {
        proof {
            reveal(model::entry_created);
        }
        let geo: NodeGeometry = self.node_geometry();
        let mut p: Page = match store.pin(id) {
            Err(fault) => {
                return Err(HnswError::Storage { context: "insert: pin_mut node page", fault });
            },
            Ok(p) => p,
        };
        proof {
            node::lemma_sizes(geo, level);
        }
        let slot: u16 = match apply::select_slot(&p, geo.entry_size(level)) {
            Err(e) => {
                return Err(e);
            },
            Ok(slot) => slot,
        };
        let payload: WalPayload = Payload::NodeInit {
            meta_page_id: self.meta_page_id,
            page_id: id,
            slot_id: slot,
            node_id,
            level,
            dim: self.params.dim,
            vector: copied(vector),
        };
        let lsn: Lsn = match log_record(
            store,
            log,
            id,
            payload,
            "insert: encode NodeInit",
            "insert: WAL append NodeInit",
        ) {
            Err(e) => {
                return Err(e);
            },
            Ok(lsn) => lsn,
        };
        match apply::apply_node_at(&mut p, slot, node_id, level, geo, vector) {
            Err(e) => {
                return Err(e);
            },
            Ok(_) => {},
        }
        put_page(store, id, p, lsn);
        match self.barrier(log, ProbeMark::NodeInit) {
            Err(e) => Err(e),
            Ok(_) => Ok(slot),
        }
    }

    /// Publishes the entry's place on the directory page `tail`.
    fn publish_place(
        &mut self,
        store: &mut PageStore,
        log: &mut WalLog,
        tail: PageId,
        node_id: u32,
        id: PageId,
        slot: u16,
    ) -> (r: Result<(), HnswError>)
        requires
            old(self)@.hwm < u32::MAX,
        ensures
            (world(*final(self), *final(store), *final(log)), r) == model::place_published(
                world(*old(self), *old(store), *old(log)),
                tail,
                node_id,
                id,
                slot,
            ),
    {
        proof {
            reveal(model::place_published);
        }
        let mut p: Page = match store.pin(tail) {
            Err(fault) => {
                return Err(HnswError::Storage { context: "insert: pin_mut directory tail", fault });
            },
            Ok(p) => p,
        };
        let payload: WalPayload = Payload::DirAppend {
            dir_tail_page: tail,
            node_id,
            target_page: id,
            target_slot: slot,
        };
        let lsn: Lsn = match log_record(
            store,
            log,
            tail,
            payload,
            "insert: encode DirAppend",
            "insert: WAL append DirAppend",
        ) {
            Err(e) => {
                return Err(e);
            },
            Ok(lsn) => lsn,
        };
        match apply::dir_append(&mut p, node_id, id, slot) {
            Err(e) => {
                return Err(e);
            },
            Ok(_) => {},
        }
        put_page(store, tail, p, lsn);
        match self.barrier(log, ProbeMark::DirAppend) {
            Err(e) => {
                return Err(e);
            },
            Ok(_) => {},
        }
        self.hwm = self.hwm + 1;
        Ok(())
    }

    /// The geometry of the index's entries.
    fn node_geometry(&self) -> (geo: NodeGeometry)
        ensures
            geo == model::geometry(self@.params),
    {
        NodeGeometry { dim: self.params.dim, m: self.params.m, m_max0: self.params.m_max0 }
    }
}

// ---------------------------------------------------------------------
// Edges, the entry point and the end of an insertion.
// ---------------------------------------------------------------------

/// A copy of a list of words.
fn copied(w: &[u32]) -> (v: Vec<u32>)
    ensures
        v@ == w@,
{
    let mut v: Vec<u32> = Vec::new();
    let mut i: usize = 0;
    while i < w.len()
        invariant
            i <= w@.len(),
            v@ == w@.take(i as int),
        decreases w@.len() - i,
    {
        v.push(w[i]);
        assert(v@ =~= w@.take(i + 1));
        i = i + 1;
    }
    assert(w@.take(i as int) =~= w@);
    v
}

// ---------------------------------------------------------------------
// Choices that distances decide.
// ---------------------------------------------------------------------

/// What a search of one level finds, nearest first: at least the node that it
/// started from.
#[derive(Debug)]
pub struct LayerHits {
    /// The nearest node.
    pub nearest: Cand,
    /// The others.
    pub others: Vec<Cand>,
}

impl LayerHits {
    /// All that was found.
    pub open spec fn spec_list(&self) -> Seq<Cand> {
        seq![self.nearest] + self.others@
    }

    /// All that was found.
    pub fn list(&self) -> (v: Vec<Cand>)
        ensures
            v@ == self.spec_list(),
    {
        let mut v: Vec<Cand> = Vec::new();
        v.push(self.nearest);
        let mut i: usize = 0;
        assert(v@ =~= seq![self.nearest] + self.others@.take(0));
        while i < self.others.len()
            invariant
                i <= self.others@.len(),
                v@ == seq![self.nearest] + self.others@.take(i as int),
            decreases self.others@.len() - i,
        {
            v.push(self.others[i]);
            assert(v@ =~= seq![self.nearest] + self.others@.take(i + 1));
            i = i + 1;
        }
        assert(self.others@.take(i as int) =~= self.others@);
        v
    }
}

/// The choices that distances decide. Nothing is assumed of them: whatever
/// is chosen, the index stays what its contracts say.
pub trait GraphSearch {
    /// Searches one level with a beam of width `ef`, from `entry` on, for the
    /// nodes nearest to `query`.
    fn search_layer(&self, g: &PagedGraph, query: &[u32], entry: NodeId, ef: usize, level: u8)
        -> LayerHits;

    /// Selects at most `m` neighbors among candidates.
    fn select_neighbors(
        &self,
        g: &PagedGraph,
        selection: NeighborSelection,
        cands: &Vec<Cand>,
        m: usize,
    ) -> Vec<u32>;

    /// The bits of the distance between two nodes.
    fn dist_between(&self, g: &PagedGraph, a: NodeId, b: NodeId) -> u64;
}

/// `g` shows the graph of a handle on these pages.
pub open spec fn shows_graph(g: PagedGraph, ix: IndexView, pages: Seq<Seq<u8>>) -> bool {
    &&& g.pages() == pages
    &&& g.directory() == ix.dir_pages
    &&& g.count() == ix.hwm
    &&& g.spec_geometry() == model::geometry(ix.params)
    &&& g.spec_metric() == ix.params.metric
}

/// `hits` is what `search` answers on a level of the graph.
pub open spec fn layer_answer<S: GraphSearch>(
    search: &S,
    ix: IndexView,
    pages: Seq<Seq<u8>>,
    query: &[u32],
    entry: NodeId,
    ef: usize,
    level: u8,
    hits: LayerHits,
) -> bool {
    exists|g: PagedGraph|
        shows_graph(g, ix, pages) && #[trigger] call_ensures(
            S::search_layer,
            (search, &g, query, entry, ef, level),
            hits,
        )
}

/// `chosen` are the neighbors that `search` selects among candidates.
pub open spec fn neighbors_answer<S: GraphSearch>(
    search: &S,
    ix: IndexView,
    pages: Seq<Seq<u8>>,
    cands: Seq<Cand>,
    m: usize,
    chosen: Seq<u32>,
) -> bool {
    exists|g: PagedGraph, from: Vec<Cand>, to: Vec<u32>|
        {
            &&& shows_graph(g, ix, pages)
            &&& from@ == cands
            &&& to@ == chosen
            &&& #[trigger] call_ensures(
                S::select_neighbors,
                (search, &g, ix.params.selection, &from, m),
                to,
            )
        }
}

/// `dist` is what `search` answers for the distance between two nodes.
pub open spec fn distance_answer<S: GraphSearch>(
    search: &S,
    ix: IndexView,
    pages: Seq<Seq<u8>>,
    a: NodeId,
    b: NodeId,
    dist: u64,
) -> bool {
    exists|g: PagedGraph|
        shows_graph(g, ix, pages) && #[trigger] call_ensures(
            S::dist_between,
            (search, &g, a, b),
            dist,
        )
}

/// `cut` is what `search` leaves of the list of `nb`: the list's nodes with
/// their distances to `nb` are the candidates, and as many are selected as
/// the level has room for.
pub open spec fn cut_answer<S: GraphSearch>(
    search: &S,
    ix: IndexView,
    pages: Seq<Seq<u8>>,
    nb: NodeId,
    level: u8,
    list: Seq<u32>,
    cut: Seq<u32>,
) -> bool {
    exists|cands: Seq<Cand>|
        {
            &&& cands.len() == list.len()
            &&& forall|j: int|
                0 <= j < list.len() ==> (#[trigger] cands[j]).id.0 == list[j] && distance_answer(
                    search,
                    ix,
                    pages,
                    nb,
                    cands[j].id,
                    cands[j].dist,
                )
            &&& #[trigger] neighbors_answer(
                search,
                ix,
                pages,
                cands,
                model::level_cap(ix.params, level) as usize,
                cut,
            )
        }
}

/// A descent from the entry point through the levels below `from`, with a
/// beam of width 1 from the nearest node of the level above, has come to the
/// level `to` and to the node `ep`.
pub open spec fn descended<S: GraphSearch>(
    search: &S,
    ix: IndexView,
    pages: Seq<Seq<u8>>,
    query: &[u32],
    from: int,
    to: int,
    ep: NodeId,
) -> bool
    decreases from - to,
{
    if to >= from {
        ep == NodeId(ix.params.entry_point)
    } else {
        exists|before: NodeId, hits: LayerHits|
            {
                &&& #[trigger] layer_answer(search, ix, pages, query, before, 1, to as u8, hits)
                &&& descended(search, ix, pages, query, from, to + 1, before)
                &&& ep == hits.nearest.id
            }
    }
}

/// Where connecting comes to the neighbor `i` and its list is over its
/// capacity, what it is cut down to is an answer of `search`.
#[verifier::opaque]
pub open spec fn cut_is_answer<S: GraphSearch>(
    search: &S,
    w: World,
    node_id: u32,
    level: u8,
    c: LevelChoice,
    i: nat,
) -> bool {
    let (w1, r) = model::level_connected(w, node_id, level, c, i);
    let nb = c.neighbors[i as int];
    match model::edge_planned(w1, node_id, nb, level) {
        Ok(plan) => r is Ok && plan.over ==> cut_answer(
            search,
            w1.index,
            w1.disk.pages,
            NodeId(nb),
            level,
            plan.list,
            c.shrunk[i as int],
        ),
        Err(_) => true,
    }
}

/// What the list of the neighbor `i` is cut down to does not depend on the
/// choices behind it.
proof fn lemma_cut_kept<S: GraphSearch>(
    search: &S,
    w: World,
    node_id: u32,
    level: u8,
    a: LevelChoice,
    b: LevelChoice,
    i: nat,
)
    requires
        a.neighbors == b.neighbors,
        i < a.shrunk.len(),
        i < b.shrunk.len(),
        forall|j: int| 0 <= j <= i ==> a.shrunk[j] == b.shrunk[j],
        cut_is_answer(search, w, node_id, level, a, i),
    ensures
        cut_is_answer(search, w, node_id, level, b, i),
{
    reveal(cut_is_answer);
    model::lemma_level_connected_prefix(w, node_id, level, a, b, i);
}

/// Connecting does not come to the neighbors behind a failure.
proof fn lemma_cuts_past_a_failure<S: GraphSearch>(
    search: &S,
    w: World,
    node_id: u32,
    level: u8,
    c: LevelChoice,
    n: nat,
)
    requires
        model::level_connected(w, node_id, level, c, n).1 is Err,
    ensures
        forall|i: nat|
            n <= i < c.neighbors.len() ==> #[trigger] cut_is_answer(
                search,
                w,
                node_id,
                level,
                c,
                i,
            ),
{
    assert forall|i: nat| n <= i < c.neighbors.len() implies #[trigger] cut_is_answer(
        search,
        w,
        node_id,
        level,
        c,
        i,
    ) by {
        reveal(cut_is_answer);
        model::lemma_level_connected_fails(w, node_id, level, c, n, i);
    }
}

/// The choice on the shared level number `k`, from the highest down, is an
/// answer of `search`: `hits[k]` is what it finds from the nearest node of
/// the level above, or from `start`, with the beam of construction; the
/// neighbors are selected among them.
pub open spec fn choice_is_answer<S: GraphSearch>(
    search: &S,
    w: World,
    node_id: u32,
    shared: nat,
    vector: &[u32],
    start: NodeId,
    cs: Seq<LevelChoice>,
    hits: Seq<LayerHits>,
    k: nat,
) -> bool {
    let w1 = model::connected(w, node_id, shared, cs, k).0;
    let q = w1.index.params;
    let level = (shared - 1 - k) as u8;
    let c = cs[k as int];
    let entry = if k == 0 {
        start
    } else {
        hits[k - 1].nearest.id
    };
    &&& layer_answer(
        search,
        w1.index,
        w1.disk.pages,
        vector,
        entry,
        q.ef_construction as usize,
        level,
        hits[k as int],
    )
    &&& neighbors_answer(
        search,
        w1.index,
        w1.disk.pages,
        hits[k as int].spec_list(),
        q.m as usize,
        c.neighbors,
    )
    &&& forall|i: nat|
        i < c.neighbors.len() ==> #[trigger] cut_is_answer(search, w1, node_id, level, c, i)
}

/// The choices from the world `w` on are answers of `search`: it starts where
/// a descent to the new node's top level comes, and chooses level by level.
pub open spec fn choices_follow<S: GraphSearch>(
    search: &S,
    w: World,
    pending: PendingInsert,
    vector: &[u32],
    cs: Seq<LevelChoice>,
) -> bool {
    let shared = model::shared_levels(w.index, pending);
    exists|start: NodeId, hits: Seq<LayerHits>|
        {
            &&& hits.len() == cs.len()
            &&& cs.len() <= shared
            &&& shared > 0 ==> descended(
                search,
                w.index,
                w.disk.pages,
                vector,
                w.index.params.max_level + 1,
                pending.level + 1,
                start,
            )
            &&& #[trigger] choices_below(
                search,
                w,
                pending.node_id.0,
                shared,
                vector,
                start,
                cs,
                hits,
            )
        }
}

/// The graph of `w1` is the one of `w` with the node that these choices
/// connect, on the level that is drawn.
pub open spec fn grown(w: World, w1: World, vector: Seq<u32>, cs: Seq<LevelChoice>) -> bool {
    &&& index_laws::held(w1)
    &&& index_laws::graph_of(w1) == index_laws::with_node(
        index_laws::graph_of(w),
        w.index.params,
        rng::level_draw(w.index.rng, w.index.params.m).0 as u8,
        vector,
        cs,
    )
}

/// The choices of an insertion into the world `w` are answers of `search`.
pub open spec fn choices_are_answers<S: GraphSearch>(
    search: &S,
    w: World,
    vector: &[u32],
    cs: Seq<LevelChoice>,
) -> bool {
    match model::begun(w, vector@) {
        (_, Err(_)) => cs.len() == 0,
        (w1, Ok(pending)) => choices_follow(search, w1, pending, vector, cs),
    }
}

/// Every choice is an answer of `search`.
pub open spec fn choices_below<S: GraphSearch>(
    search: &S,
    w: World,
    node_id: u32,
    shared: nat,
    vector: &[u32],
    start: NodeId,
    cs: Seq<LevelChoice>,
    hits: Seq<LayerHits>,
) -> bool {
    forall|k: nat|
        k < cs.len() ==> #[trigger] choice_is_answer(
            search,
            w,
            node_id,
            shared,
            vector,
            start,
            cs,
            hits,
            k,
        )
}

/// A neighbor's list with the new node in it.
#[derive(Debug)]
pub struct EdgePlan {
    /// The page of the neighbor's entry.
    pub page_id: PageId,
    /// The slot of the neighbor's entry.
    pub slot: u16,
    /// The list, with the new node in its place.
    pub list: Vec<u32>,
    /// Whether the list is longer than its capacity.
    pub over: bool,
}

impl View for EdgePlan {
    type V = EdgeView;

    open spec fn view(&self) -> EdgeView {
        EdgeView { page_id: self.page_id, slot: self.slot, list: self.list@, over: self.over }
    }
}

/// Finds where `x` belongs in an ascending list.
fn find_rank(list: &Vec<u32>, x: u32) -> (at: usize)
    ensures
        at == model::rank(list@, x),
        at <= list@.len(),
{
    let mut i: usize = 0;
    assert(list@.skip(0) =~= list@);
    while i < list.len() && list[i] < x
        invariant
            i <= list@.len(),
            model::rank(list@, x) == i + model::rank(list@.skip(i as int), x),
        decreases list@.len() - i,
    {
        assert(list@.skip(i as int).skip(1) =~= list@.skip(i + 1));
        i = i + 1;
    }
    i
}

impl HnswIndex {
    /// The graph on its pages.
    fn paged<'a>(&'a self, store: &'a PageStore) -> (g: PagedGraph<'a>)
        ensures
            shows_graph(g, self@, store@),
    {
        PagedGraph::new(
            store,
            &self.dir_pages,
            self.hwm,
            self.params.dim,
            self.params.m,
            self.params.m_max0,
            self.params.metric,
        )
    }

    /// Checks a vector before it is inserted.
    fn check_insert(&self, vector: &[u32]) -> (r: Result<(), HnswError>)
        ensures
            r == (match model::insert_fault(self@, vector@) {
                Some(e) => Err::<(), HnswError>(e),
                None => Ok(()),
            }),
    {
        if vector.len() != self.params.dim as usize {
            return Err(
                HnswError::InvalidArgument(
                    Reason::Index(
                        IndexFault::VectorLen {
                            what: "insert: vector",
                            len: vector.len(),
                            dim: self.params.dim,
                        },
                    ),
                ),
            );
        }
        match self.params.metric.check_vector(vector) {
            Err(e) => {
                return Err(e);
            },
            Ok(_) => {},
        }
        if self.hwm == u32::MAX as u64 {
            return Err(HnswError::InvalidOperation(Reason::Index(IndexFault::NodeIdSpace)));
        }
        Ok(())
    }

    /// Begins an insertion: checks the vector, draws the level, and puts the
    /// entry on a page and its place in the directory. A vector that fails the
    /// checks changes nothing; a failure after the draw leaves the draw one
    /// level ahead, until the index is opened again.
    pub fn begin_insert(&mut self, store: &mut PageStore, log: &mut WalLog, vector: &[u32]) -> (r:
        Result<PendingInsert, HnswError>)
        requires
            model::index_ok(old(self)@),
        ensures
            (world(*final(self), *final(store), *final(log)), r) == model::begun(
                world(*old(self), *old(store), *old(log)),
                vector@,
            ),
            model::index_ok(final(self)@),
            r matches Ok(pending) ==> model::pending_ok(final(self)@, pending),
    {
        proof {
            reveal(model::begun);
            model::lemma_begun_keeps(world(*old(self), *old(store), *old(log)), vector@);
        }
        match self.check_insert(vector) {
            Err(e) => {
                return Err(e);
            },
            Ok(_) => {},
        }
        let node_id: u32 = self.hwm as u32;
        let level: u8 = self.rng.next_level(self.params.m);
        let geo: NodeGeometry = self.node_geometry();
        proof {
            rng::lemma_level_draw_bound(old(self)@.rng, old(self)@.params.m);
            node::lemma_sizes(geo, level);
        }
        let len: usize = geo.entry_size(level);
        proof {
            model::lemma_node_page_ready_keeps(world(*self, *store, *log), len);
        }
        let id: PageId = match self.ready_node_page(store, log, len) {
            Err(e) => {
                return Err(e);
            },
            Ok(id) => id,
        };
        proof {
            model::lemma_dir_tail_ready_keeps(world(*self, *store, *log));
        }
        let tail: PageId = match self.ready_dir_tail(store, log) {
            Err(e) => {
                return Err(e);
            },
            Ok(tail) => tail,
        };
        proof {
            model::lemma_entry_created_keeps(world(*self, *store, *log), id, node_id, level, vector@);
        }
        let slot: u16 = match self.create_entry(store, log, id, node_id, level, vector) {
            Err(e) => {
                return Err(e);
            },
            Ok(slot) => slot,
        };
        match self.publish_place(store, log, tail, node_id, id, slot) {
            Err(e) => Err(e),
            Ok(_) => Ok(PendingInsert { node_id: NodeId(node_id), level, page_id: id, slot }),
        }
    }

    /// Puts the new node into the list of the neighbor `nb`, without writing
    /// it. A list that already has the node is corrupt.
    pub fn plan_edge(&self, store: &PageStore, node_id: NodeId, nb: NodeId, level: u8) -> (r:
        Result<EdgePlan, HnswError>)
        ensures
            forall|log: WalLog|
                match #[trigger] model::edge_planned(world(*self, *store, log), node_id.0, nb.0, level) {
                    Err(e) => r == Err::<EdgePlan, HnswError>(e),
                    Ok(plan) => r matches Ok(p) && p@ == plan,
                },
    {
        let (page_id, slot) = match self.paged(store).resolve(nb) {
            Err(e) => {
                return Err(e);
            },
            Ok(place) => place,
        };
        let p: Page = match store.pin(page_id) {
            Err(fault) => {
                return Err(HnswError::Storage { context: "insert: pin neighbor page", fault });
            },
            Ok(p) => p,
        };
        let mut list: Vec<u32> = match apply::entry_neighbors(
            &p,
            slot,
            self.node_geometry(),
            level,
        ) {
            Err(e) => {
                return Err(e);
            },
            Ok(list) => list,
        };
        let at: usize = find_rank(&list, node_id.0);
        if at < list.len() && list[at] == node_id.0 {
            return Err(
                HnswError::Corrupted(
                    Reason::Index(
                        IndexFault::DuplicateEdge { from: nb.0, to: node_id.0, level },
                    ),
                ),
            );
        }
        list.insert(at, node_id.0);
        let over: bool = list.len() > self.capacity(level);
        Ok(EdgePlan { page_id, slot, list, over })
    }

    /// How many neighbors a node can have on `level`.
    fn capacity(&self, level: u8) -> (n: usize)
        ensures
            n == model::level_cap(self@.params, level),
    {
        if level == 0 {
            self.params.m_max0 as usize
        } else {
            self.params.m as usize
        }
    }

    /// Writes a list.
    fn write_list(
        &mut self,
        store: &mut PageStore,
        log: &mut WalLog,
        place: (PageId, u16),
        owner: u32,
        level: u8,
        list: &[u32],
        contexts: (&'static str, &'static str, &'static str),
        mark: ProbeMark,
    ) -> (r: Result<(), HnswError>)
        ensures
            (world(*final(self), *final(store), *final(log)), r) == model::list_written(
                world(*old(self), *old(store), *old(log)),
                place.0,
                place.1,
                owner,
                level,
                list@,
                contexts,
                mark,
            ),
    {
        proof {
            reveal(model::list_written);
        }
        let geo: NodeGeometry = self.node_geometry();
        let mut p: Page = match store.pin(place.0) {
            Err(fault) => {
                return Err(HnswError::Storage { context: contexts.0, fault });
            },
            Ok(p) => p,
        };
        let payload: WalPayload = Payload::SetNeighbors {
            meta_page_id: self.meta_page_id,
            page_id: place.0,
            slot_id: place.1,
            node_id: owner,
            level,
            neighbors: copied(list),
        };
        let lsn: Lsn = match log_record(
            store,
            log,
            place.0,
            payload,
            contexts.1,
            contexts.2,
        ) {
            Err(e) => {
                return Err(e);
            },
            Ok(lsn) => lsn,
        };
        match apply::set_neighbors(&mut p, place.1, geo, level, list) {
            Err(e) => {
                return Err(e);
            },
            Ok(_) => {},
        }
        put_page(store, place.0, p, lsn);
        self.barrier(log, mark)
    }

    /// Makes `list` the list of the neighbor `nb` on `level`.
    pub fn write_edge(
        &mut self,
        store: &mut PageStore,
        log: &mut WalLog,
        plan: &EdgePlan,
        nb: NodeId,
        level: u8,
        list: &[u32],
    ) -> (r: Result<(), HnswError>)
        ensures
            (world(*final(self), *final(store), *final(log)), r) == model::edge_written(
                world(*old(self), *old(store), *old(log)),
                plan@,
                nb.0,
                level,
                list@,
            ),
            final(self)@ == (IndexView { probe: final(self)@.probe, ..old(self)@ }),
    {
        proof {
            let w = world(*old(self), *old(store), *old(log));
            model::lemma_list_written_keeps(
                w,
                plan.page_id,
                plan.slot,
                nb.0,
                level,
                list@,
                (
                    "insert: pin_mut neighbor page",
                    "insert: encode SetNeighbors",
                    "insert: WAL append SetNeighbors",
                ),
                ProbeMark::NeighborEdge { level, shrank: plan.over },
            );
        }
        self.write_list(
            store,
            log,
            (plan.page_id, plan.slot),
            nb.0,
            level,
            list,
            (
                "insert: pin_mut neighbor page",
                "insert: encode SetNeighbors",
                "insert: WAL append SetNeighbors",
            ),
            ProbeMark::NeighborEdge { level, shrank: plan.over },
        )
    }

    /// How many levels the new node shares with the graph; none with an empty
    /// graph.
    pub fn levels_to_connect(&self, pending: &PendingInsert) -> (n: u16)
        ensures
            n == model::shared_levels(self@, *pending),
    {
        if self.params.entry_point == params::INVALID_NODE {
            0
        } else if pending.level < self.params.max_level {
            pending.level as u16 + 1
        } else {
            self.params.max_level as u16 + 1
        }
    }
}

/// The lists, as contracts speak of them.
pub open spec fn word_lists(lists: Seq<Vec<u32>>) -> Seq<Seq<u32>> {
    Seq::new(lists.len(), |i: int| lists[i]@)
}

impl HnswIndex {
    /// Writes the new node's lists.
    fn write_own_lists(
        &mut self,
        store: &mut PageStore,
        log: &mut WalLog,
        pending: &PendingInsert,
        own: &Vec<Vec<u32>>,
        n: u16,
    ) -> (r: Result<(), HnswError>)
        requires
            n <= 256,
        ensures
            (world(*final(self), *final(store), *final(log)), r) == model::own_lists_written(
                world(*old(self), *old(store), *old(log)),
                *pending,
                word_lists(own@),
                n as nat,
            ),
    {
        let ghost w = world(*old(self), *old(store), *old(log));
        let ghost lists = word_lists(own@);
        let mut l: u16 = 0;
        while l < n
            invariant
                l <= n <= 256,
                lists == word_lists(own@),
                (world(*self, *store, *log), Ok::<(), HnswError>(())) == model::own_lists_written(
                    w,
                    *pending,
                    lists,
                    l as nat,
                ),
                w == world(*old(self), *old(store), *old(log)),
            decreases n - l,
        {
            if (l as usize) < own.len() && own[l as usize].len() > 0 {
                assert(model::own_list(lists, l as int) == own@[l as int]@);
                match self.write_list(
                    store,
                    log,
                    (pending.page_id, pending.slot),
                    pending.node_id.0,
                    l as u8,
                    &own[l as usize],
                    (
                        "insert: pin_mut own node page",
                        "insert: encode own SetNeighbors",
                        "insert: WAL append own SetNeighbors",
                    ),
                    ProbeMark::OwnList { level: l as u8 },
                ) {
                    Err(e) => {
                        proof {
                            model::lemma_own_lists_fail(w, *pending, lists, (l + 1) as nat, n as nat);
                        }
                        return Err(e);
                    },
                    Ok(u) => {
                        assert(u == ());
                    },
                }
            } else {
                assert(model::own_list(lists, l as int).len() == 0);
            }
            l = l + 1;
        }
        Ok(())
    }

    /// Makes the new node the entry point where it stands above the old one
    /// or is the first.
    fn raise_entry_point(
        &mut self,
        store: &mut PageStore,
        log: &mut WalLog,
        pending: &PendingInsert,
    ) -> (r: Result<(), HnswError>)
        ensures
            (world(*final(self), *final(store), *final(log)), r) == model::entry_point_raised(
                world(*old(self), *old(store), *old(log)),
                *pending,
            ),
    {
        proof {
            reveal(model::entry_point_raised);
        }
        if self.params.entry_point != params::INVALID_NODE && pending.level
            <= self.params.max_level {
            return Ok(());
        }
        let id: PageId = self.meta_page_id;
        let mut p: Page = match store.pin(id) {
            Err(fault) => {
                return Err(HnswError::Storage { context: "insert: pin_mut meta page", fault });
            },
            Ok(p) => p,
        };
        let payload: WalPayload = Payload::MetaUpdate {
            meta_page_id: id,
            entry_point: pending.node_id.0,
            max_level: pending.level,
        };
        let lsn: Lsn = match log_record(
            store,
            log,
            id,
            payload,
            "insert: encode MetaUpdate",
            "insert: WAL append MetaUpdate",
        ) {
            Err(e) => {
                return Err(e);
            },
            Ok(lsn) => lsn,
        };
        apply::apply_meta(&mut p, pending.node_id.0, pending.level);
        put_page(store, id, p, lsn);
        match self.barrier(log, ProbeMark::MetaUpdate) {
            Err(e) => {
                return Err(e);
            },
            Ok(_) => {},
        }
        self.set_entry_point(pending.node_id.0, pending.level);
        Ok(())
    }

    /// Replaces the entry point and its level in the handle.
    fn set_entry_point(&mut self, entry_point: u32, max_level: u8)
        ensures
            final(self)@ == (IndexView {
                params: (MetaParams { entry_point, max_level, ..old(self)@.params }),
                ..old(self)@
            }),
    {
        self.params.entry_point = entry_point;
        self.params.max_level = max_level;
    }

    /// Makes the entry live.
    fn publish_entry(
        &mut self,
        store: &mut PageStore,
        log: &mut WalLog,
        pending: &PendingInsert,
    ) -> (r: Result<(), HnswError>)
        ensures
            (world(*final(self), *final(store), *final(log)), r) == model::entry_published(
                world(*old(self), *old(store), *old(log)),
                *pending,
            ),
    {
        proof {
            reveal(model::entry_published);
        }
        let dim: u16 = self.params.dim;
        let mut p: Page = match store.pin(pending.page_id) {
            Err(fault) => {
                return Err(HnswError::Storage { context: "insert: pin_mut node page", fault });
            },
            Ok(p) => p,
        };
        let payload: WalPayload = Payload::PublishLive {
            meta_page_id: self.meta_page_id,
            page_id: pending.page_id,
            slot_id: pending.slot,
            node_id: pending.node_id.0,
            dim,
        };
        let lsn: Lsn = match log_record(
            store,
            log,
            pending.page_id,
            payload,
            "insert: encode PublishLive",
            "insert: WAL append PublishLive",
        ) {
            Err(e) => {
                return Err(e);
            },
            Ok(lsn) => lsn,
        };
        match apply::publish_live(&mut p, pending.slot, dim) {
            Err(e) => {
                return Err(e);
            },
            Ok(_) => {},
        }
        put_page(store, pending.page_id, p, lsn);
        self.barrier(log, ProbeMark::PublishLive)
    }

    /// Ends an insertion: writes the new node's lists, `own` by level, raises
    /// the entry point if need be, makes the entry live, and makes every
    /// record durable.
    pub fn finish_insert(
        &mut self,
        store: &mut PageStore,
        log: &mut WalLog,
        pending: &PendingInsert,
        own: &Vec<Vec<u32>>,
    ) -> (r: Result<NodeId, HnswError>)
        requires
            model::index_ok(old(self)@),
            model::pending_ok(old(self)@, *pending),
        ensures
            (world(*final(self), *final(store), *final(log)), r) == model::finished(
                world(*old(self), *old(store), *old(log)),
                *pending,
                word_lists(own@),
            ),
            model::index_ok(final(self)@),
    {
        proof {
            let w = world(*old(self), *old(store), *old(log));
            reveal(model::finished);
            model::lemma_finished_keeps(w, *pending, word_lists(own@));
            model::lemma_own_lists_written_keeps(
                w,
                *pending,
                word_lists(own@),
                model::shared_levels(w.index, *pending),
            );
        }
        let n: u16 = self.levels_to_connect(pending);
        match self.write_own_lists(store, log, pending, own, n) {
            Err(e) => {
                return Err(e);
            },
            Ok(_) => {},
        }
        match self.raise_entry_point(store, log, pending) {
            Err(e) => {
                return Err(e);
            },
            Ok(_) => {},
        }
        match self.publish_entry(store, log, pending) {
            Err(e) => {
                return Err(e);
            },
            Ok(_) => {},
        }
        log.flush();
        Ok(pending.node_id)
    }
}

impl HnswIndex {
    /// What the list of `nb`, with the new node in it, is cut down to.
    fn shrink<S: GraphSearch>(
        &self,
        store: &PageStore,
        search: &S,
        nb: NodeId,
        level: u8,
        list: &Vec<u32>,
    ) -> (r: Vec<u32>)
        ensures
            cut_answer(search, self@, store@, nb, level, list@, r@),
    {
        let g: PagedGraph = self.paged(store);
        let mut cands: Vec<Cand> = Vec::new();
        let mut i: usize = 0;
        while i < list.len()
            invariant
                i <= list@.len(),
                cands@.len() == i,
                shows_graph(g, self@, store@),
                forall|j: int|
                    0 <= j < i ==> (#[trigger] cands@[j]).id.0 == list@[j] && distance_answer(
                        search,
                        self@,
                        store@,
                        nb,
                        cands@[j].id,
                        cands@[j].dist,
                    ),
            decreases list@.len() - i,
        {
            let id: NodeId = NodeId(list[i]);
            let dist: u64 = search.dist_between(&g, nb, id);
            assert(distance_answer(search, self@, store@, nb, id, dist));
            cands.push(Cand { dist, id });
            i = i + 1;
        }
        let m: usize = self.capacity(level);
        let r: Vec<u32> = search.select_neighbors(&g, self.params.selection, &cands, m);
        assert(m == model::level_cap(self@.params, level) as usize);
        assert(neighbors_answer(search, self@, store@, cands@, m, r@));
        r
    }

    /// Connects the new node to its neighbors on one level.
    fn connect_level<S: GraphSearch>(
        &mut self,
        store: &mut PageStore,
        log: &mut WalLog,
        search: &S,
        node_id: NodeId,
        level: u8,
        neighbors: &Vec<u32>,
    ) -> (r: (Result<(), HnswError>, Ghost<LevelChoice>))
        ensures
            r.1@.neighbors == neighbors@,
            (world(*final(self), *final(store), *final(log)), r.0) == model::level_connected(
                world(*old(self), *old(store), *old(log)),
                node_id.0,
                level,
                r.1@,
                neighbors@.len(),
            ),
            forall|i: nat|
                i < neighbors@.len() ==> #[trigger] cut_is_answer(
                    search,
                    world(*old(self), *old(store), *old(log)),
                    node_id.0,
                    level,
                    r.1@,
                    i,
                ),
    {
        let ghost w = world(*old(self), *old(store), *old(log));
        let ghost mut c = LevelChoice { neighbors: neighbors@, shrunk: Seq::empty() };
        proof {
            reveal(model::level_connected);
        }
        let mut i: usize = 0;
        while i < neighbors.len()
            invariant
                i <= neighbors@.len(),
                c.neighbors == neighbors@,
                c.shrunk.len() == i,
                (world(*self, *store, *log), Ok::<(), HnswError>(())) == model::level_connected(
                    w,
                    node_id.0,
                    level,
                    c,
                    i as nat,
                ),
                w == world(*old(self), *old(store), *old(log)),
                forall|k: nat|
                    k < i ==> #[trigger] cut_is_answer(search, w, node_id.0, level, c, k),
            decreases neighbors@.len() - i,
        {
            proof {
                reveal(model::level_connected);
            }
            let nb: NodeId = NodeId(neighbors[i]);
            let ghost before = world(*self, *store, *log);
            let ghost n = (i + 1) as nat;
            let ghost all = neighbors@.len();
            let plan: EdgePlan = match self.plan_edge(store, node_id, nb, level) {
                Err(e) => {
                    proof {
                        assert(model::edge_planned(before, node_id.0, nb.0, level) is Err);
                        assert(model::level_connected(w, node_id.0, level, c, n) == (
                            before,
                            Err::<(), HnswError>(e),
                        ));
                        model::lemma_level_connected_fails(w, node_id.0, level, c, n, all);
                        assert(cut_is_answer(search, w, node_id.0, level, c, i as nat)) by {
                            reveal(cut_is_answer);
                        }
                        lemma_cuts_past_a_failure(search, w, node_id.0, level, c, n);
                    }
                    return (Err(e), Ghost(c));
                },
                Ok(plan) => plan,
            };
            assert(model::edge_planned(before, node_id.0, nb.0, level) == Ok::<EdgeView, HnswError>(
                plan@,
            ));
            let shrunk: Vec<u32> = if plan.over {
                self.shrink(store, search, nb, level, &plan.list)
            } else {
                Vec::new()
            };
            proof {
                let a = c;
                c = LevelChoice { neighbors: a.neighbors, shrunk: a.shrunk.push(shrunk@) };
                model::lemma_level_connected_prefix(w, node_id.0, level, a, c, i as nat);
                assert forall|k: nat| k <= i implies #[trigger] cut_is_answer(
                    search,
                    w,
                    node_id.0,
                    level,
                    c,
                    k,
                ) by {
                    if k < i {
                        lemma_cut_kept(search, w, node_id.0, level, a, c, k);
                    } else {
                        reveal(cut_is_answer);
                    }
                }
            }
            let list: &[u32] = if plan.over {
                &shrunk
            } else {
                &plan.list
            };
            match self.write_edge(store, log, &plan, nb, level, list) {
                Err(e) => {
                    proof {
                        assert(model::level_connected(w, node_id.0, level, c, n) == (
                            world(*self, *store, *log),
                            Err::<(), HnswError>(e),
                        ));
                        model::lemma_level_connected_fails(w, node_id.0, level, c, n, all);
                        lemma_cuts_past_a_failure(search, w, node_id.0, level, c, n);
                    }
                    return (Err(e), Ghost(c));
                },
                Ok(u) => {
                    assert(u == ());
                },
            }
            i = i + 1;
        }
        (Ok(()), Ghost(c))
    }

    /// Descends from the entry point to the node nearest to `vector` that a
    /// beam of width 1 finds on the levels from `top` down to `bottom`.
    fn descend<S: GraphSearch>(
        &self,
        store: &PageStore,
        search: &S,
        vector: &[u32],
        top: u8,
        bottom: u16,
    ) -> (ep: NodeId)
        ensures
            descended(search, self@, store@, vector, top + 1, bottom as int, ep),
    {
        let g: PagedGraph = self.paged(store);
        let mut ep: NodeId = NodeId(self.params.entry_point);
        let mut above: u16 = top as u16 + 1;
        while above > bottom
            invariant
                above <= top + 1,
                bottom < above || above == top + 1 || bottom == above,
                shows_graph(g, self@, store@),
                descended(search, self@, store@, vector, top + 1, above as int, ep),
            decreases above,
        {
            let ghost before = ep;
            above = above - 1;
            let hits: LayerHits = search.search_layer(&g, vector, ep, 1, above as u8);
            ep = hits.nearest.id;
            assert(layer_answer(search, self@, store@, vector, before, 1, above as u8, hits));
        }
        ep
    }

    /// Inserts a vector and gives its node id: ids count up from 0 and are
    /// never given twice.
    ///
    /// A vector that does not have the index's dimension, has a component
    /// that is not finite, or is zero under the cosine, changes nothing. What
    /// the new node is connected to is `search`'s choice, level by level.
    pub fn insert<S: GraphSearch>(
        &mut self,
        store: &mut PageStore,
        log: &mut WalLog,
        search: &S,
        vector: &[u32],
    ) -> (r: Result<NodeId, HnswError>)
        requires
            model::index_ok(old(self)@),
        ensures
            exists|cs: Seq<LevelChoice>|
                {
                    &&& #[trigger] model::inserted(
                        world(*old(self), *old(store), *old(log)),
                        vector@,
                        cs,
                    ) == (world(*final(self), *final(store), *final(log)), r)
                    &&& model::decided(
                        world(*old(self), *old(store), *old(log)),
                        vector@,
                        cs,
                    )
                    &&& choices_are_answers(
                        search,
                        world(*old(self), *old(store), *old(log)),
                        vector,
                        cs,
                    )
                    &&& r is Ok && index_laws::held(world(*old(self), *old(store), *old(log)))
                        ==> grown(
                        world(*old(self), *old(store), *old(log)),
                        world(*final(self), *final(store), *final(log)),
                        vector@,
                        cs,
                    )
                },
            model::index_ok(final(self)@),
    {
        let ghost w = world(*old(self), *old(store), *old(log));
        let ghost mut cs: Seq<LevelChoice> = Seq::empty();
        let ghost mut hs: Seq<LayerHits> = Seq::empty();
        let pending: PendingInsert = match self.begin_insert(store, log, vector) {
            Err(e) => {
                assert(model::inserted(w, vector@, cs) == (world(*self, *store, *log), Err::<
                    NodeId,
                    HnswError,
                >(e)));
                return Err(e);
            },
            Ok(pending) => pending,
        };
        let ghost w1 = world(*self, *store, *log);
        let shared: u16 = self.levels_to_connect(&pending);
        let mut ep: NodeId = if shared > 0 {
            self.descend(store, search, vector, self.params.max_level, pending.level as u16 + 1)
        } else {
            NodeId(self.params.entry_point)
        };
        let ghost start = ep;
        let mut own: Vec<Vec<u32>> = Vec::new();
        let mut k: u16 = 0;
        assert(word_lists(own@) =~= model::chosen_lists(cs));
        while k < shared
            invariant
                k <= shared <= 256,
                shared == model::shared_levels(w1.index, pending),
                cs.len() == k,
                word_lists(own@) == model::chosen_lists(cs),
                model::begun(w, vector@) == (w1, Ok::<PendingInsert, HnswError>(pending)),
                (world(*self, *store, *log), Ok::<(), HnswError>(())) == model::connected(
                    w1,
                    pending.node_id.0,
                    shared as nat,
                    cs,
                    k as nat,
                ),
                model::index_ok(w1.index),
                w == world(*old(self), *old(store), *old(log)),
                hs.len() == k,
                ep == if k == 0 {
                    start
                } else {
                    hs[k - 1].nearest.id
                },
                shared > 0 ==> descended(
                    search,
                    w1.index,
                    w1.disk.pages,
                    vector,
                    w1.index.params.max_level + 1,
                    pending.level + 1,
                    start,
                ),
                choices_below(
                    search,
                    w1,
                    pending.node_id.0,
                    shared as nat,
                    vector,
                    start,
                    cs,
                    hs,
                ),
            decreases shared - k,
        {
            let level: u8 = (shared - 1 - k) as u8;
            let ghost wk = world(*self, *store, *log);
            let hits: LayerHits = search.search_layer(
                &self.paged(store),
                vector,
                ep,
                self.params.ef_construction as usize,
                level,
            );
            assert(layer_answer(
                search,
                wk.index,
                wk.disk.pages,
                vector,
                ep,
                wk.index.params.ef_construction as usize,
                level,
                hits,
            ));
            let cands: Vec<Cand> = hits.list();
            let neighbors: Vec<u32> = search.select_neighbors(
                &self.paged(store),
                self.params.selection,
                &cands,
                self.params.m as usize,
            );
            assert(neighbors_answer(
                search,
                wk.index,
                wk.disk.pages,
                hits.spec_list(),
                wk.index.params.m as usize,
                neighbors@,
            ));
            let (done, choice) = self.connect_level(
                store,
                log,
                search,
                pending.node_id,
                level,
                &neighbors,
            );
            let ghost a = cs;
            proof {
                let found = hs;
                cs = a.push(choice@);
                hs = found.push(hits);
                assert forall|j: nat| j < cs.len() implies #[trigger] choice_is_answer(
                    search,
                    w1,
                    pending.node_id.0,
                    shared as nat,
                    vector,
                    start,
                    cs,
                    hs,
                    j,
                ) by {
                    model::lemma_connected_prefix(
                        w1,
                        pending.node_id.0,
                        shared as nat,
                        a,
                        cs,
                        j,
                    );
                    if j < k {
                        assert(choice_is_answer(
                            search,
                            w1,
                            pending.node_id.0,
                            shared as nat,
                            vector,
                            start,
                            a,
                            found,
                            j,
                        ));
                    }
                }
                model::lemma_connected_prefix(
                    w1,
                    pending.node_id.0,
                    shared as nat,
                    a,
                    cs,
                    k as nat,
                );
                assert(model::connected(w1, pending.node_id.0, shared as nat, cs, (k + 1) as nat) == (
                    world(*self, *store, *log),
                    done,
                ));
                model::lemma_connected_keeps(
                    w1,
                    pending.node_id.0,
                    shared as nat,
                    cs,
                    (k + 1) as nat,
                );
            }
            assert(choices_below(
                search,
                w1,
                pending.node_id.0,
                shared as nat,
                vector,
                start,
                cs,
                hs,
            ));
            assert(choices_follow(search, w1, pending, vector, cs));
            match done {
                Err(e) => {
                    assert(model::inserted(w, vector@, cs) == (world(*self, *store, *log), Err::<
                        NodeId,
                        HnswError,
                    >(e)));
                    return Err(e);
                },
                Ok(u) => {
                    assert(u == ());
                },
            }
            let ghost before = own@;
            own.insert(0, neighbors);
            proof {
                assert(word_lists(before).len() == model::chosen_lists(a).len());
                let lists = word_lists(own@);
                let chosen = model::chosen_lists(cs);
                assert forall|l: int| 0 <= l < lists.len() implies lists[l] == chosen[l] by {
                    if l > 0 {
                        assert(own@[l] == before[l - 1]);
                        assert(word_lists(before)[l - 1] == model::chosen_lists(a)[l - 1]);
                    }
                }
                assert(lists =~= chosen);
            }
            ep = hits.nearest.id;
            k = k + 1;
        }
        proof {
            model::lemma_connected_keeps(w1, pending.node_id.0, shared as nat, cs, shared as nat);
        }
        let r: Result<NodeId, HnswError> = self.finish_insert(store, log, &pending, &own);
        assert(model::inserted(w, vector@, cs) == (world(*self, *store, *log), r));
        proof {
            if r is Ok && index_laws::held(w) {
                index_laws::lemma_insertion_adds_the_node(w, vector@, cs);
            }
        }
        r
    }
}

// ---------------------------------------------------------------------
// Search.
// ---------------------------------------------------------------------

/// The first `k` of what a search finds.
pub fn take_hits(found: Vec<Cand>, k: usize) -> (r: Vec<Cand>)
    ensures
        r@ == model::first_hits(found@, k),
{
    let mut r: Vec<Cand> = found;
    if r.len() > k {
        r.truncate(k);
    }
    r
}

impl HnswIndex {
    /// Checks a query, and decides what it needs: nothing where the answer is
    /// empty, else a beam of the width that is returned.
    pub fn plan_search(&self, query: &[u32], k: usize, ef: Option<usize>) -> (r: Result<
        Option<usize>,
        HnswError,
    >)
        ensures
            r == model::search_plan(self@, query@, k, ef),
    {
        if query.len() != self.params.dim as usize {
            return Err(
                HnswError::InvalidArgument(
                    Reason::Index(
                        IndexFault::VectorLen {
                            what: "search: query",
                            len: query.len(),
                            dim: self.params.dim,
                        },
                    ),
                ),
            );
        }
        match self.params.metric.check_vector(query) {
            Err(e) => {
                return Err(e);
            },
            Ok(_) => {},
        }
        let width: usize = match ef {
            Some(n) => n,
            None => self.params.ef_search_default as usize,
        };
        if width < k {
            return Err(
                HnswError::InvalidArgument(
                    Reason::Index(IndexFault::EfBelowK { ef: width, k }),
                ),
            );
        }
        if self.params.entry_point == params::INVALID_NODE || k == 0 {
            return Ok(None);
        }
        Ok(Some(width))
    }

    /// Searches for the `k` nearest nodes, with a beam of width `ef` or the
    /// index's default; the beam must fit the result. An entry that is not
    /// live yet is an answer like any other: it has its vector.
    pub fn search<S: GraphSearch>(
        &self,
        store: &PageStore,
        search: &S,
        query: &[u32],
        k: usize,
        ef: Option<usize>,
    ) -> (r: Result<Vec<Cand>, HnswError>)
        ensures
            match model::search_plan(self@, query@, k, ef) {
                Err(e) => r == Err::<Vec<Cand>, HnswError>(e),
                Ok(None) => r matches Ok(v) && v@ == Seq::<Cand>::empty(),
                Ok(Some(width)) => r matches Ok(v) && exists|ep: NodeId, hits: LayerHits|
                    {
                        &&& descended(
                            search,
                            self@,
                            store@,
                            query,
                            self@.params.max_level + 1,
                            1,
                            ep,
                        )
                        &&& #[trigger] layer_answer(
                            search,
                            self@,
                            store@,
                            query,
                            ep,
                            width,
                            0,
                            hits,
                        )
                        &&& v@ == model::first_hits(hits.spec_list(), k)
                    },
            },
    {
        let width: usize = match self.plan_search(query, k, ef) {
            Err(e) => {
                return Err(e);
            },
            Ok(None) => {
                let none: Vec<Cand> = Vec::new();
                assert(none@ =~= Seq::<Cand>::empty());
                return Ok(none);
            },
            Ok(Some(width)) => width,
        };
        let ep: NodeId = self.descend(store, search, query, self.params.max_level, 1);
        let hits: LayerHits = search.search_layer(&self.paged(store), query, ep, width, 0);
        assert(layer_answer(search, self@, store@, query, ep, width, 0, hits));
        let found: Vec<Cand> = hits.list();
        Ok(take_hits(found, k))
    }
}

// ---------------------------------------------------------------------
// Creating an index.
// ---------------------------------------------------------------------

/// Creates an index: a directory page and a meta page, each logged as it is
/// made. The records are not durable yet; that is up to the caller. A failure
/// after the directory page leaves the page without an owner.
pub fn create(
    store: &mut PageStore,
    log: &mut WalLog,
    params: HnswParams,
    dim: u16,
    metric: Metric,
    selection: NeighborSelection,
    rng_seed: u64,
) -> (r: Result<HnswIndex, HnswError>)
    ensures
        match model::created(
            disk(*old(store), *old(log)),
            params,
            dim,
            metric,
            selection,
            rng_seed,
        ) {
            (d, Err(e)) => r == Err::<HnswIndex, HnswError>(e) && disk(
                *final(store),
                *final(log),
            ) == d,
            (d, Ok(ix)) => r matches Ok(index) && index@ == ix && disk(
                *final(store),
                *final(log),
            ) == d && model::index_ok(ix),
        },
        r matches Ok(index) ==> {
            let w = world(index, *final(store), *final(log));
            index_laws::held(w) && index_laws::graph_of(w) == Seq::<NodeView>::empty()
        },
{
    let ghost before = disk(*old(store), *old(log));
    proof {
        store.lemma_sized();
    }
    let m: u16 = params.m();
    match node::check_creation_geometry(dim, m, params.m_max0()) {
        Err(e) => {
            return Err(e);
        },
        Ok(_) => {},
    }
    let mut image: Page = [0u8; PAGE_SIZE];
    page::init_dir_page(&mut image, 0);
    let dir_head: PageId = match allocate_page(
        store,
        log,
        image,
        "create: allocate directory head",
    ) {
        Err(e) => {
            return Err(e);
        },
        Ok(id) => id,
    };
    let q: MetaParams = MetaParams {
        entry_point: NodeId::invalid().0,
        max_level: 0,
        metric,
        selection,
        dim,
        m,
        m_max0: params.m_max0(),
        ef_construction: params.ef_construction(),
        ef_search_default: params.ef_search_default(),
        rng_seed,
        dir_head,
    };
    let mut image: Page = [0u8; PAGE_SIZE];
    page::init_meta_page(&mut image);
    meta::write_meta(&mut image, &q);
    let meta_page_id: PageId = match allocate_page(
        store,
        log,
        image,
        "create: allocate meta page",
    ) {
        Err(e) => {
            return Err(e);
        },
        Ok(id) => id,
    };
    let index = HnswIndex {
        meta_page_id,
        dir_head,
        params: q,
        hwm: 0,
        rng: Xoshiro256StarStar::new(rng_seed),
        dir_pages: vec![dir_head],
        current_node_page: None,
        probe: ProbeState { marks: Vec::new(), crash_after: None, logging: false },
    };
    proof {
        open_laws::lemma_created_is_empty(before, params, dim, metric, selection, rng_seed);
        assert(index.dir_pages@ =~= seq![dir_head]);
        assert(index.probe.marks@ =~= Seq::<ProbeMark>::empty());
        rng::lemma_top_level_bound(m as nat);
    }
    Ok(index)
}

// ---------------------------------------------------------------------
// Opening an index.
// ---------------------------------------------------------------------

/// An index that has been opened.
#[derive(Debug)]
pub struct OpenOutcome {
    /// The handle.
    pub index: HnswIndex,
    /// What is worth a warning: a default beam width that is not the expected
    /// one.
    pub warnings: Vec<String>,
}

/// Repairs the entry point.
fn repair(store: &mut PageStore, log: &mut WalLog, meta_id: PageId, q: MetaParams, hwm: u64) -> (r:
    Result<MetaParams, HnswError>)
    requires
        meta::valid(q),
        q.dir_head.0 < old(store)@.len(),
        meta_id.0 < old(store)@.len(),
    ensures
        (disk(*final(store), *final(log)), r) == model::repaired(
            disk(*old(store), *old(log)),
            meta_id,
            q,
            hwm,
        ),
        r matches Ok(q1) ==> meta::valid(q1) && q1.m == q.m,
{
    if hwm == 0 || q.entry_point != params::INVALID_NODE {
        return Ok(q);
    }
    let head: Page = match store.pin(q.dir_head) {
        Err(fault) => {
            return Err(HnswError::Storage { context: "open: pin directory page", fault });
        },
        Ok(p) => p,
    };
    let (id, slot) = match dir::dir_entry(&head, 0) {
        Err(e) => {
            return Err(e);
        },
        Ok(place) => place,
    };
    let p: Page = match store.pin(id) {
        Err(fault) => {
            return Err(HnswError::Storage { context: "open-repair: pin first node page", fault });
        },
        Ok(p) => p,
    };
    let tag: u16 = page::page_type(&p);
    if tag != PAGE_TYPE_NODE {
        return Err(
            HnswError::Corrupted(Reason::Index(IndexFault::RepairType { page: id.0, tag })),
        );
    }
    let top: u8 = match apply::entry_top_level(&p, slot, q.dim) {
        Err(e) => {
            return Err(e);
        },
        Ok(top) => top,
    };
    let l_max: u8 = rng::l_max(q.m);
    if top > l_max {
        return Err(
            HnswError::Corrupted(
                Reason::Index(IndexFault::RepairLevel { top, m: q.m, l_max }),
            ),
        );
    }
    let mut p: Page = match store.pin(meta_id) {
        Err(fault) => {
            return Err(HnswError::Storage { context: "open-repair: pin_mut meta page", fault });
        },
        Ok(p) => p,
    };
    let payload: WalPayload = Payload::MetaUpdate {
        meta_page_id: meta_id,
        entry_point: 0,
        max_level: top,
    };
    let lsn: Lsn = match log_record(
        store,
        log,
        meta_id,
        payload,
        "open-repair: encode MetaUpdate",
        "open-repair: WAL append",
    ) {
        Err(e) => {
            return Err(e);
        },
        Ok(lsn) => lsn,
    };
    apply::apply_meta(&mut p, 0, top);
    put_page(store, meta_id, p, lsn);
    proof {
        rng::lemma_top_level_bound(q.m as nat);
    }
    Ok(MetaParams { entry_point: 0, max_level: top, ..q })
}

/// Finds the page of the last node's entry.
fn find_last_node_page(store: &PageStore, dirs: &Vec<PageId>, hwm: u64) -> (r: Result<
    Option<PageId>,
    HnswError,
>)
    requires
        hwm <= 813 * dirs.len(),
        hwm <= u32::MAX,
    ensures
        r == model::last_node_page(store@, dirs@, hwm),
{
    if hwm == 0 {
        return Ok(None);
    }
    let last: u64 = hwm - 1;
    let at: usize = (last / 813) as usize;
    assert(at < dirs.len());
    let p: Page = match store.pin(dirs[at]) {
        Err(fault) => {
            return Err(
                HnswError::Storage { context: "open: pin directory page of last entry", fault },
            );
        },
        Ok(p) => p,
    };
    match dir::dir_entry(&p, (last % 813) as u32) {
        Err(e) => Err(e),
        Ok((node_page, _)) => Ok(Some(node_page)),
    }
}

/// The generator of an index after `hwm` level draws.
fn skip_ahead(seed: u64, m: u16, hwm: u64) -> (g: Xoshiro256StarStar)
    requires
        m >= 2,
    ensures
        g@ == rng::after_levels(rng::seeded(seed), m, hwm as nat),
{
    let mut g: Xoshiro256StarStar = Xoshiro256StarStar::new(seed);
    let mut i: u64 = 0;
    while i < hwm
        invariant
            m >= 2,
            i <= hwm,
            g@ == rng::after_levels(rng::seeded(seed), m, i as nat),
        decreases hwm - i,
    {
        let _ = g.next_level(m);
        i = i + 1;
    }
    g
}

/// Opens an index.
///
/// The meta page must read and be what the caller expects; the directory must
/// be a legal chain, and the entry point a node of it. Where a crash left
/// nodes without an entry point, the first node becomes it, through a record
/// like any other. The level draw is taken to where the index has it: a
/// crash, or closing the index, does not change the levels that follow.
pub fn open(
    store: &mut PageStore,
    log: &mut WalLog,
    meta_page_id: PageId,
    expected: &ExpectedParams,
) -> (r: Result<OpenOutcome, HnswError>)
    ensures
        match model::opened(disk(*old(store), *old(log)), meta_page_id, *expected) {
            (d, Err(e)) => r == Err::<OpenOutcome, HnswError>(e) && disk(
                *final(store),
                *final(log),
            ) == d,
            (d, Ok((ix, warnings))) => {
                &&& r matches Ok(o)
                &&& o.index@ == ix
                &&& meta::texts(o.warnings@) == warnings
                &&& disk(*final(store), *final(log)) == d
                &&& model::index_ok(ix)
            },
        },
{
    let p: Page = match store.pin(meta_page_id) {
        Err(fault) => {
            return Err(HnswError::Storage { context: "open: pin meta page", fault });
        },
        Ok(p) => p,
    };
    let q: MetaParams = match meta::read_meta(&p) {
        Err(e) => {
            return Err(e);
        },
        Ok(q) => q,
    };
    let warnings: Vec<String> = match meta::check_expected(&q, expected) {
        Err(e) => {
            return Err(e);
        },
        Ok(w) => w,
    };
    proof {
        meta::lemma_read_meta_is_valid(p@);
        model::lemma_chain_reaches(store@, "open: pin directory page", q.dir_head);
    }
    let chain: DirChainInfo = match dir::check_dir_chain(
        q.dir_head,
        store,
        "open: pin directory page",
    ) {
        Err(e) => {
            return Err(e);
        },
        Ok(chain) => chain,
    };
    let hwm: u64 = chain.hwm;
    if q.entry_point != params::INVALID_NODE && q.entry_point as u64 >= hwm {
        return Err(
            HnswError::Corrupted(
                Reason::Index(
                    IndexFault::EntryPointRange { entry_point: q.entry_point, hwm },
                ),
            ),
        );
    }
    let q1: MetaParams = match repair(store, log, meta_page_id, q, hwm) {
        Err(e) => {
            return Err(e);
        },
        Ok(q1) => q1,
    };
    let rng: Xoshiro256StarStar = skip_ahead(q1.rng_seed, q1.m, hwm);
    let current_node_page: Option<PageId> = match find_last_node_page(store, &chain.pages, hwm) {
        Err(e) => {
            return Err(e);
        },
        Ok(current) => current,
    };
    let index = HnswIndex {
        meta_page_id,
        dir_head: q1.dir_head,
        params: q1,
        hwm,
        rng,
        dir_pages: chain.pages,
        current_node_page,
        probe: ProbeState { marks: Vec::new(), crash_after: None, logging: false },
    };
    assert(index.probe.marks@ =~= Seq::<ProbeMark>::empty());
    Ok(OpenOutcome { index, warnings })
}

// ---------------------------------------------------------------------
// The rest of the handle.
// ---------------------------------------------------------------------

impl HnswIndex {
    /// The index's meta page.
    pub fn meta_page_id(&self) -> (id: PageId)
        ensures
            id == self@.meta_page_id,
    {
        self.meta_page_id
    }

    /// The directory's first page.
    pub fn dir_head(&self) -> (id: PageId)
        ensures
            id == self@.dir_head,
    {
        self.dir_head
    }

    /// The parameters.
    pub fn params(&self) -> (q: &MetaParams)
        ensures
            *q == self@.params,
    {
        &self.params
    }

    /// The number of nodes, which is the next node id.
    pub fn hwm(&self) -> (n: u64)
        ensures
            n == self@.hwm,
    {
        self.hwm
    }

    /// The entry point; that of no node for an empty graph.
    pub fn entry_point(&self) -> (id: u32)
        ensures
            id == self@.params.entry_point,
    {
        self.params.entry_point
    }

    /// The entry point's level; 0 for an empty graph.
    pub fn max_level(&self) -> (l: u8)
        ensures
            l == self@.params.max_level,
    {
        self.params.max_level
    }

    /// Draws the next node's level.
    pub fn next_level(&mut self) -> (l: u8)
        requires
            model::index_ok(old(self)@),
        ensures
            l == rng::level_draw(old(self)@.rng, old(self)@.params.m).0,
            final(self)@ == (IndexView {
                rng: rng::level_draw(old(self)@.rng, old(self)@.params.m).1,
                ..old(self)@
            }),
            model::index_ok(final(self)@),
    {
        self.rng.next_level(self.params.m)
    }

    /// The marks that are kept, in order.
    pub fn probe_marks(&self) -> (v: Vec<ProbeMark>)
        ensures
            v@ == self@.probe.marks,
    {
        let mut v: Vec<ProbeMark> = Vec::new();
        let mut i: usize = 0;
        while i < self.probe.marks.len()
            invariant
                i <= self.probe.marks@.len(),
                v@ == self.probe.marks@.take(i as int),
            decreases self.probe.marks@.len() - i,
        {
            v.push(self.probe.marks[i]);
            assert(v@ =~= self.probe.marks@.take(i + 1));
            i = i + 1;
        }
        assert(self.probe.marks@.take(i as int) =~= self.probe.marks@);
        v
    }

    /// Forgets the marks.
    pub fn probe_clear_marks(&mut self)
        ensures
            final(self)@ == (IndexView {
                probe: (ProbeView { marks: Seq::empty(), ..old(self)@.probe }),
                ..old(self)@
            }),
    {
        self.probe.marks = Vec::new();
        assert(self.probe.marks@ =~= Seq::<ProbeMark>::empty());
    }

    /// Sets where insertions stop: the one that passes the mark with this
    /// number fails there, with every record durable.
    pub fn probe_set_crash_after(&mut self, crash_after: Option<usize>)
        ensures
            final(self)@ == (IndexView {
                probe: (ProbeView { crash_after, ..old(self)@.probe }),
                ..old(self)@
            }),
    {
        self.probe.crash_after = crash_after;
    }

    /// Keeps marks, or not.
    pub fn probe_set_logging(&mut self, logging: bool)
        ensures
            final(self)@ == (IndexView {
                probe: (ProbeView { logging, ..old(self)@.probe }),
                ..old(self)@
            }),
    {
        self.probe.logging = logging;
    }

    /// Audits the index, from its pages alone.
    pub fn audit(&self, store: &PageStore) -> (r: Result<AuditReport, HnswError>)
        ensures
            r == audit::audited(store@, self@.meta_page_id),
    {
        audit::audit_index(store, self.meta_page_id)
    }
}

} // verus!
