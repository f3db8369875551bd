//! A read-only view of the graph on its pages.
//!
//! A node's place is found through the directory's pages in order, which the
//! index keeps from its walk along the chain: entry `id % 813` of page
//! `id / 813`. What a directory entry names must be a node page.

use vstd::prelude::*;

use crate::apply;
use crate::dir;
use crate::dir::DIR_ENTRIES_PER_PAGE;
use crate::error::HnswError;
use crate::fault::IndexFault;
use crate::fault::Reason;
use crate::graph::Metric;
use crate::node::NodeGeometry;
use crate::page;
use crate::page::PAGE_TYPE_DIR;
use crate::page::PAGE_TYPE_NODE;
use crate::params::NodeId;
use crate::storage;
use crate::storage::Page;
use crate::storage::PageId;
use crate::storage::PageStore;

verus! {

/// The place of a node: the page and the slot of its entry.
pub open spec fn resolved(pages: Seq<Seq<u8>>, dir_pages: Seq<PageId>, node: u32) -> Result<
    (PageId, u16),
    HnswError,
> {
    let at = node / DIR_ENTRIES_PER_PAGE;
    if at >= dir_pages.len() {
        Err(
            HnswError::Corrupted(
                Reason::Index(
                    IndexFault::ResolvePast { node, pages: dir_pages.len() as usize },
                ),
            ),
        )
    } else {
        match storage::fetched(pages, dir_pages[at as int]) {
            Err(fault) => Err(
                HnswError::Storage { context: "resolve: pin directory page", fault },
            ),
            Ok(p) => if storage::pd_flags(p) != PAGE_TYPE_DIR {
                Err(
                    HnswError::Corrupted(
                        Reason::Index(
                            IndexFault::ResolveNotDir { page: dir_pages[at as int].0 },
                        ),
                    ),
                )
            } else {
                dir::entry(p, node % DIR_ENTRIES_PER_PAGE)
            },
        }
    }
}

/// The page of a node's entry, and its slot.
pub open spec fn node_place(pages: Seq<Seq<u8>>, dir_pages: Seq<PageId>, node: u32) -> Result<
    (Seq<u8>, u16),
    HnswError,
> {
    match resolved(pages, dir_pages, node) {
        Err(e) => Err(e),
        Ok((id, slot)) => match storage::fetched(pages, id) {
            Err(fault) => Err(HnswError::Storage { context: "paged graph: pin node page", fault }),
            Ok(p) => if storage::pd_flags(p) != PAGE_TYPE_NODE {
                Err(
                    HnswError::Corrupted(
                        Reason::Index(
                            IndexFault::WrongType {
                                node,
                                page: id.0,
                                tag: storage::pd_flags(p),
                            },
                        ),
                    ),
                )
            } else {
                Ok((p, slot))
            },
        },
    }
}

/// The vector of a node.
pub open spec fn node_vector(
    pages: Seq<Seq<u8>>,
    dir_pages: Seq<PageId>,
    dim: u16,
    node: u32,
) -> Result<Seq<u32>, HnswError> {
    match node_place(pages, dir_pages, node) {
        Err(e) => Err(e),
        Ok((p, slot)) => apply::vector_of(p, slot, dim),
    }
}

/// The neighbors of a node on a level.
pub open spec fn node_neighbors(
    pages: Seq<Seq<u8>>,
    dir_pages: Seq<PageId>,
    geo: NodeGeometry,
    node: u32,
    level: u8,
) -> Result<Seq<u32>, HnswError> {
    match node_place(pages, dir_pages, node) {
        Err(e) => Err(e),
        Ok((p, slot)) => apply::neighbors_of(p, slot, geo, level),
    }
}

/// The graph on its pages.
pub struct PagedGraph<'a> {
    /// The pages.
    store: &'a PageStore,
    /// The directory's pages in order.
    dir_pages: &'a Vec<PageId>,
    /// The number of nodes.
    hwm: u64,
    /// Vector dimension.
    dim: u16,
    /// Neighbor capacity of the upper levels.
    m: u16,
    /// Neighbor capacity of level 0.
    m_max0: u16,
    /// Distance metric.
    metric: Metric,
}

impl<'a> PagedGraph<'a> {
    /// The pages.
    pub closed spec fn pages(&self) -> Seq<Seq<u8>> {
        self.store@
    }

    /// The directory's pages in order.
    pub closed spec fn directory(&self) -> Seq<PageId> {
        self.dir_pages@
    }

    /// The number of nodes.
    pub closed spec fn count(&self) -> u64 {
        self.hwm
    }

    /// The geometry of the entries.
    pub closed spec fn spec_geometry(&self) -> NodeGeometry {
        NodeGeometry { dim: self.dim, m: self.m, m_max0: self.m_max0 }
    }

    /// The distance metric.
    pub closed spec fn spec_metric(&self) -> Metric {
        self.metric
    }

    /// A view of the graph.
    pub fn new(
        store: &'a PageStore,
        dir_pages: &'a Vec<PageId>,
        hwm: u64,
        dim: u16,
        m: u16,
        m_max0: u16,
        metric: Metric,
    ) -> (g: Self)
        ensures
            g.pages() == store@,
            g.directory() == dir_pages@,
            g.count() == hwm,
            g.spec_geometry() == (NodeGeometry { dim, m, m_max0 }),
            g.spec_metric() == metric,
    {
        PagedGraph { store, dir_pages, hwm, dim, m, m_max0, metric }
    }

    /// The geometry of the entries.
    pub fn geometry(&self) -> (geo: NodeGeometry)
        ensures
            geo == self.spec_geometry(),
    {
        NodeGeometry { dim: self.dim, m: self.m, m_max0: self.m_max0 }
    }

    /// The distance metric.
    pub fn metric(&self) -> (m: Metric)
        ensures
            m == self.spec_metric(),
    {
        self.metric
    }

    /// The number of nodes.
    pub fn node_count(&self) -> (n: u64)
        ensures
            n == self.count(),
    {
        self.hwm
    }

    /// Finds a node's place. A node past the directory is corrupt, never made
    /// up.
    pub fn resolve(&self, node_id: NodeId) -> (r: Result<(PageId, u16), HnswError>)
        ensures
            r == resolved(self.pages(), self.directory(), node_id.0),
    {
        let at: usize = (node_id.0 / DIR_ENTRIES_PER_PAGE) as usize;
        if at >= self.dir_pages.len() {
            return Err(
                HnswError::Corrupted(
                    Reason::Index(
                        IndexFault::ResolvePast { node: node_id.0, pages: self.dir_pages.len() },
                    ),
                ),
            );
        }
        let id: PageId = self.dir_pages[at];
        let p: Page = match self.store.pin(id) {
            Err(fault) => {
                return Err(HnswError::Storage { context: "resolve: pin directory page", fault });
            },
            Ok(p) => p,
        };
        if page::page_type(&p) != PAGE_TYPE_DIR {
            return Err(
                HnswError::Corrupted(Reason::Index(IndexFault::ResolveNotDir { page: id.0 })),
            );
        }
        dir::dir_entry(&p, node_id.0 % DIR_ENTRIES_PER_PAGE)
    }

    /// Reads the page of a node's entry, and finds its slot.
    pub fn with_node(&self, node: NodeId) -> (r: Result<(Page, u16), HnswError>)
        ensures
            match node_place(self.pages(), self.directory(), node.0) {
                Err(e) => r == Err::<(Page, u16), HnswError>(e),
                Ok((p, slot)) => r matches Ok(q) && q.0@ == p && q.1 == slot,
            },
    {
        let (id, slot) = match self.resolve(node) {
            Err(e) => {
                return Err(e);
            },
            Ok(place) => place,
        };
        let p: Page = match self.store.pin(id) {
            Err(fault) => {
                return Err(HnswError::Storage { context: "paged graph: pin node page", fault });
            },
            Ok(p) => p,
        };
        let tag: u16 = page::page_type(&p);
        if tag != PAGE_TYPE_NODE {
            return Err(
                HnswError::Corrupted(
                    Reason::Index(IndexFault::WrongType { node: node.0, page: id.0, tag }),
                ),
            );
        }
        Ok((p, slot))
    }

    /// A node's vector.
    pub fn vector(&self, node: NodeId) -> (r: Result<Vec<u32>, HnswError>)
        ensures
            match node_vector(
                self.pages(),
                self.directory(),
                self.spec_geometry().dim,
                node.0,
            ) {
                Err(e) => r == Err::<Vec<u32>, HnswError>(e),
                Ok(w) => r matches Ok(v) && v@ == w,
            },
    {
        match self.with_node(node) {
            Err(e) => Err(e),
            Ok((p, slot)) => apply::entry_vector(&p, slot, self.dim),
        }
    }

    /// A node's neighbors on a level.
    pub fn neighbors(&self, node: NodeId, level: u8) -> (r: Result<Vec<u32>, HnswError>)
        ensures
            match node_neighbors(
                self.pages(),
                self.directory(),
                self.spec_geometry(),
                node.0,
                level,
            ) {
                Err(e) => r == Err::<Vec<u32>, HnswError>(e),
                Ok(w) => r matches Ok(v) && v@ == w,
            },
    {
        match self.with_node(node) {
            Err(e) => Err(e),
            Ok((p, slot)) => apply::entry_neighbors(&p, slot, self.geometry(), level),
        }
    }
}

} // verus!
