//! The audit of an index: everything is read again from its pages.
//!
//! The audit trusts nothing that a handle has cached. It reads the meta page,
//! walks the directory chain, and reads every entry and every edge:
//!
//! - every directory entry names an occupied slot of a node page, and no two
//!   name the same;
//! - every vector is finite and, for the cosine, not zero;
//! - no entry is deleted without having been live, and none has a level that
//!   no draw can give;
//! - an empty graph has no entry point; any other is entered at an allocated
//!   node that stands at `max_level`;
//! - every list is strictly ascending, without its owner, and names allocated
//!   nodes that reach its level.
//!
//! Some remains of a crash are legal. They are counted and not refused:
//! entries that are not live yet, entries that no directory entry names, and
//! entries above `max_level`. Entries that nobody names are counted on the
//! pages that the directory names.
//!
//! The audit comes after opening the index: a crash can leave nodes without
//! an entry point, and opening repairs that.

use vstd::prelude::*;

use std::collections::HashSet;

use crate::apply;
use crate::dir;
use crate::dir::DirChainInfo;
use crate::error::HnswError;
use crate::fault::AuditFault;
use crate::fault::Reason;
use crate::graph;
use crate::graph::Metric;
use crate::meta;
use crate::meta::MetaParams;
use crate::node;
use crate::node::NodeGeometry;
use crate::page;
use crate::page::PAGE_TYPE_META;
use crate::page::PAGE_TYPE_NODE;
use crate::paged;
use crate::paged::PagedGraph;
use crate::params;
use crate::params::NodeId;
use crate::rng;
use crate::storage;
use crate::storage::Page;
use crate::storage::PageId;
use crate::storage::PageStore;

verus! {

/// What a clean audit finds.
#[derive(Debug, Clone, Copy, PartialEq, Eq, Structural)]
pub struct AuditReport {
    /// Nodes in the directory.
    pub node_count: u64,
    /// The entry point; `u32::MAX` in an empty graph.
    pub entry_point: u32,
    /// The entry point's level.
    pub max_level: u8,
    /// Nodes that are live.
    pub live_count: u64,
    /// Nodes that are not live yet.
    pub initializing_count: u64,
    /// Nodes that are marked deleted.
    pub tombstoned_count: u64,
    /// Nodes above `max_level`.
    pub hidden_high_level_count: u64,
    /// Occupied slots, on pages that the directory names, that no directory
    /// entry names.
    pub orphan_entry_count: u64,
    /// Directed edges on all levels.
    pub edge_count: u64,
}

// ---------------------------------------------------------------------
// The entries.
// ---------------------------------------------------------------------

/// What the audit keeps of an entry.
pub struct Entry {
    /// Its place.
    pub place: (PageId, u16),
    /// Its top level.
    pub top: u8,
    /// Whether it is live.
    pub live: bool,
    /// Whether it is marked deleted.
    pub tombstoned: bool,
}

/// The error for a violated rule.
pub open spec fn violated(f: AuditFault) -> HnswError {
    HnswError::Corrupted(Reason::Audit(f))
}

/// The geometry of the entries of an index.
pub open spec fn geometry(q: MetaParams) -> NodeGeometry {
    NodeGeometry { dim: q.dim, m: q.m, m_max0: q.m_max0 }
}

/// The state of an entry: its top level, whether it is live, and whether it
/// is marked deleted; the checks in this order.
pub open spec fn state_check(p: Seq<u8>, slot: u16, q: MetaParams, id: u64) -> Result<
    (u8, bool, bool),
    HnswError,
> {
    let l_max = rng::top_level(q.m as nat) as u8;
    match (
        apply::state_of(p, slot, q.dim, "entry_is_live"),
        apply::state_of(p, slot, q.dim, "entry_is_tombstoned"),
        apply::state_of(p, slot, q.dim, "entry_top_level"),
    ) {
        (Err(e), _, _) => Err(e),
        (_, Err(e), _) => Err(e),
        (Ok(a), Ok(b), top) => if node::state_tombstoned(b) && !node::state_live(a) {
            Err(violated(AuditFault::TombstonedNotLive { id }))
        } else {
            match top {
                Err(e) => Err(e),
                Ok(c) => if node::state_top(c) > l_max {
                    Err(
                        violated(
                            AuditFault::TopLevel { id, top: node::state_top(c), m: q.m, l_max },
                        ),
                    )
                } else {
                    Ok((node::state_top(c), node::state_live(a), node::state_tombstoned(b)))
                },
            }
        },
    }
}

/// A stored vector: finite, and for the cosine not zero.
pub open spec fn stored_vector_check(p: Seq<u8>, slot: u16, q: MetaParams, id: u64) -> Result<
    (),
    HnswError,
> {
    match apply::vector_of(p, slot, q.dim) {
        Err(e) => Err(e),
        Ok(v) => if !graph::all_finite(v) {
            Err(violated(AuditFault::NonFinite { id }))
        } else if q.metric == Metric::Cosine && graph::all_zero(v) {
            Err(violated(AuditFault::ZeroVector { id }))
        } else {
            Ok(())
        },
    }
}

/// The entry of node `id`, after the nodes whose places are `seen`; the
/// checks in this order.
pub open spec fn entry_check(
    pages: Seq<Seq<u8>>,
    dirs: Seq<PageId>,
    q: MetaParams,
    seen: Seq<(PageId, u16)>,
    id: u64,
) -> Result<Entry, HnswError> {
    match paged::resolved(pages, dirs, id as u32) {
        Err(e) => Err(e),
        Ok((page_id, slot)) => match storage::fetched(pages, page_id) {
            Err(fault) => Err(HnswError::Storage { context: "audit: pin node page", fault }),
            Ok(p) => if storage::pd_flags(p) != PAGE_TYPE_NODE {
                Err(
                    violated(
                        AuditFault::TargetType {
                            id,
                            page: page_id.0,
                            tag: storage::pd_flags(p),
                        },
                    ),
                )
            } else {
                match apply::slots(p) {
                    Err(e) => Err(e),
                    Ok(n) => if slot >= n || apply::lp(p, slot) is None {
                        Err(violated(AuditFault::EmptySlot { id, slot, page: page_id.0 }))
                    } else if seen.contains((page_id, slot)) {
                        Err(violated(AuditFault::Twice { page: page_id.0, slot }))
                    } else {
                        match stored_vector_check(p, slot, q, id) {
                            Err(e) => Err(e),
                            Ok(_) => match state_check(p, slot, q, id) {
                                Err(e) => Err(e),
                                Ok((top, live, tombstoned)) => Ok(
                                    Entry { place: (page_id, slot), top, live, tombstoned },
                                ),
                            },
                        }
                    },
                }
            },
        },
    }
}

/// The places of entries.
pub open spec fn places(es: Seq<Entry>) -> Seq<(PageId, u16)> {
    Seq::new(es.len(), |i: int| es[i].place)
}

/// The top levels of entries.
pub open spec fn tops(es: Seq<Entry>) -> Seq<u8> {
    Seq::new(es.len(), |i: int| es[i].top)
}

/// The entries of the first `n` nodes.
pub open spec fn entries(pages: Seq<Seq<u8>>, dirs: Seq<PageId>, q: MetaParams, n: nat) -> Result<
    Seq<Entry>,
    HnswError,
>
    decreases n,
{
    if n == 0 {
        Ok(Seq::empty())
    } else {
        match entries(pages, dirs, q, (n - 1) as nat) {
            Err(e) => Err(e),
            Ok(es) => match entry_check(pages, dirs, q, places(es), (n - 1) as u64) {
                Err(e) => Err(e),
                Ok(e) => Ok(es.push(e)),
            },
        }
    }
}

/// How many entries are live.
pub open spec fn live(es: Seq<Entry>) -> nat
    decreases es.len(),
{
    if es.len() == 0 {
        0
    } else {
        live(es.drop_last()) + if es.last().live {
            1nat
        } else {
            0
        }
    }
}

/// How many entries are marked deleted.
pub open spec fn tombstoned(es: Seq<Entry>) -> nat
    decreases es.len(),
{
    if es.len() == 0 {
        0
    } else {
        tombstoned(es.drop_last()) + if es.last().tombstoned {
            1nat
        } else {
            0
        }
    }
}

/// How many levels are above `max_level`.
pub open spec fn hidden(tops: Seq<u8>, max_level: u8) -> nat
    decreases tops.len(),
{
    if tops.len() == 0 {
        0
    } else {
        hidden(tops.drop_last(), max_level) + if tops.last() > max_level {
            1nat
        } else {
            0
        }
    }
}

/// The pages that entries stand on, each once, in the order of their first
/// entry.
pub open spec fn referenced(es: Seq<Entry>) -> Seq<PageId>
    decreases es.len(),
{
    if es.len() == 0 {
        Seq::empty()
    } else {
        let before = referenced(es.drop_last());
        if before.contains(es.last().place.0) {
            before
        } else {
            before.push(es.last().place.0)
        }
    }
}

/// What is wrong with the entry point, if anything.
pub open spec fn entry_point_fault(q: MetaParams, tops: Seq<u8>) -> Option<AuditFault> {
    if tops.len() == 0 {
        if q.entry_point != params::INVALID_NODE || q.max_level != 0 {
            Some(AuditFault::EmptyGraph { entry_point: q.entry_point, max_level: q.max_level })
        } else {
            None
        }
    } else if q.entry_point >= tops.len() {
        Some(AuditFault::EntryPoint { entry_point: q.entry_point, hwm: tops.len() as u64 })
    } else if tops[q.entry_point as int] != q.max_level {
        Some(
            AuditFault::EntryLevel {
                entry_point: q.entry_point,
                top: tops[q.entry_point as int],
                max_level: q.max_level,
            },
        )
    } else {
        None
    }
}

// ---------------------------------------------------------------------
// The edges.
// ---------------------------------------------------------------------

/// What is wrong with the first `n` edges of a list, if anything.
pub open spec fn edge_fault(
    tops: Seq<u8>,
    id: u64,
    level: u8,
    list: Seq<u32>,
    n: nat,
) -> Option<AuditFault>
    decreases n,
{
    if n == 0 {
        None
    } else {
        let neighbor = list[n - 1];
        match edge_fault(tops, id, level, list, (n - 1) as nat) {
            Some(f) => Some(f),
            None => if neighbor == id {
                Some(AuditFault::SelfLoop { id, level })
            } else if neighbor >= tops.len() {
                Some(AuditFault::Endpoint { id, level, neighbor, hwm: tops.len() as u64 })
            } else if tops[neighbor as int] < level {
                Some(AuditFault::Level { id, level, neighbor, top: tops[neighbor as int] })
            } else {
                None
            },
        }
    }
}

/// The number of edges of node `id` on a level.
pub open spec fn level_edges(
    p: Seq<u8>,
    slot: u16,
    geo: NodeGeometry,
    tops: Seq<u8>,
    id: u64,
    level: u8,
) -> Result<nat, HnswError> {
    match apply::neighbors_of(p, slot, geo, level) {
        Err(e) => Err(e),
        Ok(list) => if !storage::ascending(list) {
            Err(violated(AuditFault::NotAscending { id, level }))
        } else {
            match edge_fault(tops, id, level, list, list.len()) {
                Some(f) => Err(violated(f)),
                None => Ok(list.len()),
            }
        },
    }
}

/// The number of edges of node `id` on its first `n` levels.
pub open spec fn levels_edges(
    p: Seq<u8>,
    slot: u16,
    geo: NodeGeometry,
    tops: Seq<u8>,
    id: u64,
    n: nat,
) -> Result<nat, HnswError>
    decreases n,
{
    if n == 0 {
        Ok(0)
    } else {
        match levels_edges(p, slot, geo, tops, id, (n - 1) as nat) {
            Err(e) => Err(e),
            Ok(before) => match level_edges(p, slot, geo, tops, id, (n - 1) as u8) {
                Err(e) => Err(e),
                Ok(k) => Ok(before + k),
            },
        }
    }
}

/// The number of edges of node `id`.
pub open spec fn node_edges(
    pages: Seq<Seq<u8>>,
    dirs: Seq<PageId>,
    geo: NodeGeometry,
    tops: Seq<u8>,
    id: u64,
) -> Result<nat, HnswError> {
    match paged::resolved(pages, dirs, id as u32) {
        Err(e) => Err(e),
        Ok((page_id, slot)) => match storage::fetched(pages, page_id) {
            Err(fault) => Err(HnswError::Storage { context: "audit: pin node page", fault }),
            Ok(p) => levels_edges(p, slot, geo, tops, id, (tops[id as int] + 1) as nat),
        },
    }
}

/// The number of edges of the first `n` nodes.
pub open spec fn edges(
    pages: Seq<Seq<u8>>,
    dirs: Seq<PageId>,
    geo: NodeGeometry,
    tops: Seq<u8>,
    n: nat,
) -> Result<nat, HnswError>
    decreases n,
{
    if n == 0 {
        Ok(0)
    } else {
        match edges(pages, dirs, geo, tops, (n - 1) as nat) {
            Err(e) => Err(e),
            Ok(before) => match node_edges(pages, dirs, geo, tops, (n - 1) as u64) {
                Err(e) => Err(e),
                Ok(k) => Ok(before + k),
            },
        }
    }
}

// ---------------------------------------------------------------------
// The entries that nobody names, and the whole audit.
// ---------------------------------------------------------------------

/// How many of the first `n` slots of the page `id` are occupied and have no
/// name.
pub open spec fn orphans_on(p: Seq<u8>, id: PageId, named: Seq<(PageId, u16)>, n: nat) -> nat
    decreases n,
{
    if n == 0 {
        0
    } else {
        let slot = (n - 1) as u16;
        orphans_on(p, id, named, (n - 1) as nat) + if apply::lp(p, slot) is Some
            && !named.contains((id, slot)) {
            1nat
        } else {
            0
        }
    }
}

/// The number of slots of a page; 0 where it is not slotted.
pub open spec fn slots_of(p: Seq<u8>) -> nat {
    match apply::slots(p) {
        Err(_) => 0,
        Ok(n) => n as nat,
    }
}

/// How many slots of the pages `ids` are occupied and have no name.
pub open spec fn orphans(pages: Seq<Seq<u8>>, ids: Seq<PageId>, named: Seq<(PageId, u16)>) -> nat
    decreases ids.len(),
{
    if ids.len() == 0 {
        0
    } else {
        let p = pages[ids.last().0 as int];
        orphans(pages, ids.drop_last(), named) + orphans_on(p, ids.last(), named, slots_of(p))
    }
}

/// What the audit answers about a graph with parameters `q` and the directory
/// pages `dirs`, which hold `hwm` entries.
pub open spec fn graph_audited(
    pages: Seq<Seq<u8>>,
    dirs: Seq<PageId>,
    q: MetaParams,
    hwm: u64,
) -> Result<AuditReport, HnswError> {
    match entries(pages, dirs, q, hwm as nat) {
        Err(e) => Err(e),
        Ok(es) => match entry_point_fault(q, tops(es)) {
            Some(f) => Err(violated(f)),
            None => match edges(pages, dirs, geometry(q), tops(es), hwm as nat) {
                Err(e) => Err(e),
                Ok(edge_count) => Ok(
                    AuditReport {
                        node_count: hwm,
                        entry_point: q.entry_point,
                        max_level: q.max_level,
                        live_count: live(es) as u64,
                        initializing_count: (hwm - live(es)) as u64,
                        tombstoned_count: tombstoned(es) as u64,
                        hidden_high_level_count: if hwm == 0 {
                            0
                        } else {
                            hidden(tops(es), q.max_level) as u64
                        },
                        orphan_entry_count: orphans(pages, referenced(es), places(es)) as u64,
                        edge_count: edge_count as u64,
                    },
                ),
            },
        },
    }
}

/// What [`audit_index`] answers.
pub open spec fn audited(pages: Seq<Seq<u8>>, meta_id: PageId) -> Result<AuditReport, HnswError> {
    match storage::fetched(pages, meta_id) {
        Err(fault) => Err(HnswError::Storage { context: "audit: pin meta page", fault }),
        Ok(p) => if storage::pd_flags(p) != PAGE_TYPE_META {
            Err(violated(AuditFault::NotMeta { page: meta_id.0, tag: storage::pd_flags(p) }))
        } else {
            match meta::meta_of(p) {
                Err(e) => Err(e),
                Ok(q) => match dir::chain(pages, "audit: pin directory page", q.dir_head) {
                    Err(e) => Err(e),
                    Ok((dirs, hwm)) => graph_audited(pages, dirs, q, hwm),
                },
            }
        },
    }
}

// ---------------------------------------------------------------------
// Sets of places and pages.
// ---------------------------------------------------------------------

/// A place as a number.
pub open spec fn place_key(place: (PageId, u16)) -> u128 {
    (place.0.0 * 0x1_0000 + place.1) as u128
}

/// Different places have different numbers.
proof fn lemma_place_key(a: (PageId, u16), b: (PageId, u16))
    ensures
        place_key(a) == place_key(b) ==> a == b,
        place_key(a) == a.0.0 * 0x1_0000 + a.1,
{
    assert(a.0.0 * 0x1_0000 + a.1 <= u128::MAX);
    assert(b.0.0 * 0x1_0000 + b.1 <= u128::MAX);
}

/// The places that have been named.
struct Names {
    list: Vec<(PageId, u16)>,
    keys: HashSet<u128>,
}

impl Names {
    /// The list and the set hold the same places.
    spec fn agree(&self) -> bool {
        forall|k: u128|
            self.keys@.contains(k) <==> exists|i: int|
                0 <= i < self.list@.len() && #[trigger] place_key(self.list@[i]) == k
    }

    /// No places.
    fn new() -> (s: Self)
        ensures
            s.agree(),
            s.list@ == Seq::<(PageId, u16)>::empty(),
    {
        let s = Names { list: Vec::new(), keys: HashSet::new() };
        assert(s.list@ =~= Seq::<(PageId, u16)>::empty());
        s
    }

    /// The number of a place.
    fn key(id: PageId, slot: u16) -> (k: u128)
        ensures
            k == place_key((id, slot)),
    {
        proof {
            lemma_place_key((id, slot), (id, slot));
        }
        id.0 as u128 * 0x1_0000 + slot as u128
    }

    /// Whether a place has been named.
    fn contains(&self, id: PageId, slot: u16) -> (r: bool)
        requires
            self.agree(),
        ensures
            r == self.list@.contains((id, slot)),
    {
        broadcast use vstd::std_specs::hash::group_hash_axioms;

        let k: u128 = Names::key(id, slot);
        let r: bool = self.keys.contains(&k);
        proof {
            if r {
                let i = choose|i: int|
                    0 <= i < self.list@.len() && #[trigger] place_key(self.list@[i]) == k;
                lemma_place_key(self.list@[i], (id, slot));
            } else if self.list@.contains((id, slot)) {
                let i = choose|i: int|
                    0 <= i < self.list@.len() && self.list@[i] == (id, slot);
                assert(place_key(self.list@[i]) == k);
            }
        }
        r
    }

    /// Names a place.
    fn insert(&mut self, id: PageId, slot: u16)
        requires
            old(self).agree(),
        ensures
            final(self).agree(),
            final(self).list@ == old(self).list@.push((id, slot)),
    {
        broadcast use vstd::std_specs::hash::group_hash_axioms;

        let k: u128 = Names::key(id, slot);
        self.keys.insert(k);
        self.list.push((id, slot));
        proof {
            assert forall|x: u128| self.keys@.contains(x) <==> exists|i: int|
                0 <= i < self.list@.len() && #[trigger] place_key(self.list@[i]) == x by {
                let n = old(self).list@.len() as int;
                assert(place_key(self.list@[n]) == k);
                if old(self).keys@.contains(x) {
                    let i = choose|i: int|
                        0 <= i < old(self).list@.len() && #[trigger] place_key(old(self).list@[i])
                            == x;
                    assert(place_key(self.list@[i]) == x);
                }
                if exists|i: int|
                    0 <= i < self.list@.len() && #[trigger] place_key(self.list@[i]) == x {
                    let i = choose|i: int|
                        0 <= i < self.list@.len() && #[trigger] place_key(self.list@[i]) == x;
                    if i < n {
                        assert(place_key(old(self).list@[i]) == x);
                    }
                }
            }
        }
    }
}

// ---------------------------------------------------------------------
// The audit.
// ---------------------------------------------------------------------

/// Checks a stored vector.
fn check_stored_vector(p: &Page, slot: u16, q: &MetaParams, id: u64) -> (r: Result<(), HnswError>)
    ensures
        r == stored_vector_check(p@, slot, *q, id),
{
    let v: Vec<u32> = match apply::entry_vector(p, slot, q.dim) {
        Err(e) => {
            return Err(e);
        },
        Ok(v) => v,
    };
    match graph::find_nonfinite(&v) {
        Some(_) => {
            return Err(HnswError::Corrupted(Reason::Audit(AuditFault::NonFinite { id })));
        },
        None => {},
    }
    if q.metric == Metric::Cosine && graph::is_zero(&v) {
        return Err(HnswError::Corrupted(Reason::Audit(AuditFault::ZeroVector { id })));
    }
    Ok(())
}

/// Checks the state of an entry.
fn check_state(p: &Page, slot: u16, q: &MetaParams, id: u64) -> (r: Result<
    (u8, bool, bool),
    HnswError,
>)
    requires
        q.m >= 2,
    ensures
        r == state_check(p@, slot, *q, id),
{
    let live: bool = match apply::entry_is_live(p, slot, q.dim) {
        Err(e) => {
            return Err(e);
        },
        Ok(b) => b,
    };
    let tombstoned: bool = match apply::entry_is_tombstoned(p, slot, q.dim) {
        Err(e) => {
            return Err(e);
        },
        Ok(b) => b,
    };
    if tombstoned && !live {
        return Err(HnswError::Corrupted(Reason::Audit(AuditFault::TombstonedNotLive { id })));
    }
    let top: u8 = match apply::entry_top_level(p, slot, q.dim) {
        Err(e) => {
            return Err(e);
        },
        Ok(top) => top,
    };
    let l_max: u8 = rng::l_max(q.m);
    if top > l_max {
        return Err(
            HnswError::Corrupted(
                Reason::Audit(AuditFault::TopLevel { id, top, m: q.m, l_max }),
            ),
        );
    }
    Ok((top, live, tombstoned))
}

/// Checks the entry of node `id`.
fn check_entry(store: &PageStore, g: &PagedGraph, q: &MetaParams, names: &Names, id: u64) -> (r:
    Result<((PageId, u16), (u8, bool, bool)), HnswError>)
    requires
        q.m >= 2,
        names.agree(),
        g.pages() == store@,
        id <= u32::MAX,
    ensures
        match entry_check(store@, g.directory(), *q, names.list@, id) {
            Err(e) => r == Err::<((PageId, u16), (u8, bool, bool)), HnswError>(e),
            Ok(e) => r == Ok::<((PageId, u16), (u8, bool, bool)), HnswError>(
                (e.place, (e.top, e.live, e.tombstoned)),
            ),
        },
{
    let (page_id, slot) = match g.resolve(NodeId(id as u32)) {
        Err(e) => {
            return Err(e);
        },
        Ok(place) => place,
    };
    let p: Page = match store.pin(page_id) {
        Err(fault) => {
            return Err(HnswError::Storage { context: "audit: pin node page", fault });
        },
        Ok(p) => p,
    };
    let tag: u16 = page::page_type(&p);
    if tag != PAGE_TYPE_NODE {
        return Err(
            HnswError::Corrupted(
                Reason::Audit(AuditFault::TargetType { id, page: page_id.0, tag }),
            ),
        );
    }
    let n: u16 = match apply::slot_count(&p) {
        Err(e) => {
            return Err(e);
        },
        Ok(n) => n,
    };
    if slot >= n || !apply::slot_is_occupied(&p, slot) {
        return Err(
            HnswError::Corrupted(
                Reason::Audit(AuditFault::EmptySlot { id, slot, page: page_id.0 }),
            ),
        );
    }
    if names.contains(page_id, slot) {
        return Err(
            HnswError::Corrupted(Reason::Audit(AuditFault::Twice { page: page_id.0, slot })),
        );
    }
    match check_stored_vector(&p, slot, q, id) {
        Err(e) => {
            return Err(e);
        },
        Ok(_) => {},
    }
    match check_state(&p, slot, q, id) {
        Err(e) => Err(e),
        Ok(state) => Ok(((page_id, slot), state)),
    }
}

/// What a scan of the entries finds.
struct Scan {
    names: Names,
    tops: Vec<u8>,
    pages: Vec<PageId>,
    live: u64,
    tombstoned: u64,
}

impl Scan {
    /// This is what the entries `es` amount to.
    spec fn sums_up(&self, es: Seq<Entry>) -> bool {
        &&& self.names.agree()
        &&& self.names.list@ == places(es)
        &&& self.tops@ == tops(es)
        &&& self.pages@ == referenced(es)
        &&& self.live == live(es)
        &&& self.tombstoned == tombstoned(es)
        &&& self.live <= es.len()
        &&& self.tombstoned <= es.len()
    }
}

/// A failure among the first entries is the failure of all.
proof fn lemma_entries_fail(
    pages: Seq<Seq<u8>>,
    dirs: Seq<PageId>,
    q: MetaParams,
    n: nat,
    all: nat,
)
    requires
        n <= all,
        entries(pages, dirs, q, n) is Err,
    ensures
        entries(pages, dirs, q, all) == entries(pages, dirs, q, n),
    decreases all - n,
{
    if n < all {
        lemma_entries_fail(pages, dirs, q, n, (all - 1) as nat);
    }
}

/// Scans the entries of all nodes.
fn scan_entries(store: &PageStore, g: &PagedGraph, q: &MetaParams, hwm: u64) -> (r: Result<
    Scan,
    HnswError,
>)
    requires
        q.m >= 2,
        g.pages() == store@,
        hwm <= u32::MAX,
    ensures
        match entries(store@, g.directory(), *q, hwm as nat) {
            Err(e) => r == Err::<Scan, HnswError>(e),
            Ok(es) => r matches Ok(s) && s.sums_up(es) && es.len() == hwm,
        },
{
    let mut scan = Scan {
        names: Names::new(),
        tops: Vec::new(),
        pages: Vec::new(),
        live: 0,
        tombstoned: 0,
    };
    let mut on: Names = Names::new();
    let ghost mut es: Seq<Entry> = Seq::empty();
    let mut id: u64 = 0;
    proof {
        assert(scan.names.list@ =~= places(es));
        assert(scan.tops@ =~= tops(es));
        assert(scan.pages@ =~= referenced(es));
    }
    while id < hwm
        invariant
            q.m >= 2,
            g.pages() == store@,
            id <= hwm <= u32::MAX,
            es.len() == id,
            entries(store@, g.directory(), *q, id as nat) == Ok::<Seq<Entry>, HnswError>(es),
            scan.sums_up(es),
            on.agree(),
            on.list@ == Seq::new(scan.pages@.len(), |i: int| (scan.pages@[i], 0u16)),
        decreases hwm - id,
    {
        let (place, state) = match check_entry(store, g, q, &scan.names, id) {
            Err(e) => {
                proof {
                    assert(entries(store@, g.directory(), *q, (id + 1) as nat) is Err);
                    lemma_entries_fail(
                        store@,
                        g.directory(),
                        *q,
                        (id + 1) as nat,
                        hwm as nat,
                    );
                }
                return Err(e);
            },
            Ok(found) => found,
        };
        let ghost before = es;
        let ghost entry = Entry {
            place,
            top: state.0,
            live: state.1,
            tombstoned: state.2,
        };
        proof {
            es = before.push(entry);
            assert(es.drop_last() =~= before);
            assert(es.last() == entry);
        }
        let known: bool = on.contains(place.0, 0);
        proof {
            let pages = scan.pages@;
            if known {
                let i = choose|i: int| 0 <= i < on.list@.len() && on.list@[i] == (place.0, 0u16);
                assert(pages[i] == place.0);
            } else if pages.contains(place.0) {
                let i = choose|i: int| 0 <= i < pages.len() && pages[i] == place.0;
                assert(on.list@[i] == (place.0, 0u16));
            }
        }
        if !known {
            on.insert(place.0, 0);
            scan.pages.push(place.0);
            assert(on.list@ =~= Seq::new(scan.pages@.len(), |i: int| (scan.pages@[i], 0u16)));
        }
        scan.names.insert(place.0, place.1);
        scan.tops.push(state.0);
        if state.1 {
            scan.live = scan.live + 1;
        }
        if state.2 {
            scan.tombstoned = scan.tombstoned + 1;
        }
        proof {
            assert(scan.names.list@ =~= places(es));
            assert(scan.tops@ =~= tops(es));
        }
        id = id + 1;
    }
    Ok(scan)
}

/// Checks the entry point.
fn check_entry_point(q: &MetaParams, tops: &Vec<u8>) -> (r: Result<(), HnswError>)
    ensures
        r == (match entry_point_fault(*q, tops@) {
            Some(f) => Err::<(), HnswError>(violated(f)),
            None => Ok(()),
        }),
{
    if tops.len() == 0 {
        if q.entry_point != params::INVALID_NODE || q.max_level != 0 {
            return Err(
                HnswError::Corrupted(
                    Reason::Audit(
                        AuditFault::EmptyGraph {
                            entry_point: q.entry_point,
                            max_level: q.max_level,
                        },
                    ),
                ),
            );
        }
        return Ok(());
    }
    if q.entry_point as u64 >= tops.len() as u64 {
        return Err(
            HnswError::Corrupted(
                Reason::Audit(
                    AuditFault::EntryPoint { entry_point: q.entry_point, hwm: tops.len() as u64 },
                ),
            ),
        );
    }
    let top: u8 = tops[q.entry_point as usize];
    if top != q.max_level {
        return Err(
            HnswError::Corrupted(
                Reason::Audit(
                    AuditFault::EntryLevel {
                        entry_point: q.entry_point,
                        top,
                        max_level: q.max_level,
                    },
                ),
            ),
        );
    }
    Ok(())
}

/// Counts the levels above `max_level`.
fn count_hidden(tops: &Vec<u8>, max_level: u8) -> (n: u64)
    ensures
        n == hidden(tops@, max_level),
        n <= tops@.len(),
{
    let mut n: u64 = 0;
    let mut i: usize = 0;
    assert(tops@.take(0) =~= Seq::<u8>::empty());
    while i < tops.len()
        invariant
            i <= tops@.len(),
            n == hidden(tops@.take(i as int), max_level),
            n <= i,
        decreases tops@.len() - i,
    {
        proof {
            assert(tops@.take(i + 1).drop_last() =~= tops@.take(i as int));
            assert(tops@.take(i + 1).last() == tops@[i as int]);
        }
        if tops[i] > max_level {
            n = n + 1;
        }
        i = i + 1;
    }
    assert(tops@.take(i as int) =~= tops@);
    n
}

/// A fault among the first edges is the fault of the list.
proof fn lemma_edge_fault_stays(
    tops: Seq<u8>,
    id: u64,
    level: u8,
    list: Seq<u32>,
    n: nat,
    all: nat,
)
    requires
        n <= all,
        edge_fault(tops, id, level, list, n) is Some,
    ensures
        edge_fault(tops, id, level, list, all) == edge_fault(tops, id, level, list, n),
    decreases all - n,
{
    if n < all {
        lemma_edge_fault_stays(tops, id, level, list, n, (all - 1) as nat);
    }
}

/// Checks the edges of node `id` on a level, and counts them.
fn check_level(p: &Page, slot: u16, geo: NodeGeometry, tops: &Vec<u8>, id: u64, level: u8) -> (r:
    Result<u64, HnswError>)
    ensures
        match level_edges(p@, slot, geo, tops@, id, level) {
            Err(e) => r == Err::<u64, HnswError>(e),
            Ok(n) => r matches Ok(k) && k == n && k <= 0xffff,
        },
{
    let list: Vec<u32> = match apply::entry_neighbors(p, slot, geo, level) {
        Err(e) => {
            return Err(e);
        },
        Ok(list) => list,
    };
    if !storage::is_ascending(&list) {
        return Err(HnswError::Corrupted(Reason::Audit(AuditFault::NotAscending { id, level })));
    }
    let mut i: usize = 0;
    while i < list.len()
        invariant
            i <= list@.len(),
            edge_fault(tops@, id, level, list@, i as nat) is None,
            level_edges(p@, slot, geo, tops@, id, level) == (match edge_fault(
                tops@,
                id,
                level,
                list@,
                list@.len(),
            ) {
                Some(f) => Err::<nat, HnswError>(violated(f)),
                None => Ok(list@.len()),
            }),
        decreases list@.len() - i,
    {
        let neighbor: u32 = list[i];
        let ghost n = (i + 1) as nat;
        if neighbor as u64 == id {
            proof {
                lemma_edge_fault_stays(tops@, id, level, list@, n, list@.len());
            }
            return Err(HnswError::Corrupted(Reason::Audit(AuditFault::SelfLoop { id, level })));
        }
        if neighbor as u64 >= tops.len() as u64 {
            proof {
                lemma_edge_fault_stays(tops@, id, level, list@, n, list@.len());
            }
            return Err(
                HnswError::Corrupted(
                    Reason::Audit(
                        AuditFault::Endpoint { id, level, neighbor, hwm: tops.len() as u64 },
                    ),
                ),
            );
        }
        let top: u8 = tops[neighbor as usize];
        if top < level {
            proof {
                lemma_edge_fault_stays(tops@, id, level, list@, n, list@.len());
            }
            return Err(
                HnswError::Corrupted(
                    Reason::Audit(AuditFault::Level { id, level, neighbor, top }),
                ),
            );
        }
        i = i + 1;
    }
    Ok(list.len() as u64)
}

/// A failure on the first levels is the failure of the node.
proof fn lemma_levels_fail(
    p: Seq<u8>,
    slot: u16,
    geo: NodeGeometry,
    tops: Seq<u8>,
    id: u64,
    n: nat,
    all: nat,
)
    requires
        n <= all,
        levels_edges(p, slot, geo, tops, id, n) is Err,
    ensures
        levels_edges(p, slot, geo, tops, id, all) == levels_edges(p, slot, geo, tops, id, n),
    decreases all - n,
{
    if n < all {
        lemma_levels_fail(p, slot, geo, tops, id, n, (all - 1) as nat);
    }
}

/// Checks the edges of node `id`, and counts them.
fn check_node(store: &PageStore, g: &PagedGraph, tops: &Vec<u8>, id: u64) -> (r: Result<
    u64,
    HnswError,
>)
    requires
        g.pages() == store@,
        id < tops@.len(),
        id <= u32::MAX,
    ensures
        match node_edges(store@, g.directory(), g.spec_geometry(), tops@, id) {
            Err(e) => r == Err::<u64, HnswError>(e),
            Ok(n) => r matches Ok(k) && k == n && k <= 0xffff00,
        },
{
    let (page_id, slot) = match g.resolve(NodeId(id as u32)) {
        Err(e) => {
            return Err(e);
        },
        Ok(place) => place,
    };
    let p: Page = match store.pin(page_id) {
        Err(fault) => {
            return Err(HnswError::Storage { context: "audit: pin node page", fault });
        },
        Ok(p) => p,
    };
    let geo: NodeGeometry = g.geometry();
    assert(id < tops.len());
    let levels: u16 = tops[id as usize] as u16 + 1;
    let mut level: u16 = 0;
    let mut count: u64 = 0;
    while level < levels
        invariant
            level <= levels <= 256,
            count <= level * 0xffff,
            levels_edges(p@, slot, geo, tops@, id, level as nat) == Ok::<nat, HnswError>(
                count as nat,
            ),
            node_edges(store@, g.directory(), g.spec_geometry(), tops@, id) == levels_edges(
                p@,
                slot,
                geo,
                tops@,
                id,
                levels as nat,
            ),
        decreases levels - level,
    {
        match check_level(&p, slot, geo, tops, id, level as u8) {
            Err(e) => {
                proof {
                    lemma_levels_fail(
                        p@,
                        slot,
                        geo,
                        tops@,
                        id,
                        (level + 1) as nat,
                        levels as nat,
                    );
                }
                return Err(e);
            },
            Ok(k) => {
                count = count + k;
            },
        }
        level = level + 1;
    }
    Ok(count)
}

/// A failure among the first nodes is the failure of all.
proof fn lemma_edges_fail(
    pages: Seq<Seq<u8>>,
    dirs: Seq<PageId>,
    geo: NodeGeometry,
    tops: Seq<u8>,
    n: nat,
    all: nat,
)
    requires
        n <= all,
        edges(pages, dirs, geo, tops, n) is Err,
    ensures
        edges(pages, dirs, geo, tops, all) == edges(pages, dirs, geo, tops, n),
    decreases all - n,
{
    if n < all {
        lemma_edges_fail(pages, dirs, geo, tops, n, (all - 1) as nat);
    }
}

/// Checks the edges of all nodes, and counts them.
fn check_edges(store: &PageStore, g: &PagedGraph, tops: &Vec<u8>) -> (r: Result<u64, HnswError>)
    requires
        g.pages() == store@,
        tops.len() <= u32::MAX,
    ensures
        match edges(store@, g.directory(), g.spec_geometry(), tops@, tops@.len()) {
            Err(e) => r == Err::<u64, HnswError>(e),
            Ok(n) => r matches Ok(k) && k == n,
        },
{
    let mut id: u64 = 0;
    let mut count: u64 = 0;
    while id < tops.len() as u64
        invariant
            g.pages() == store@,
            id <= tops.len() <= u32::MAX,
            count <= 0xffff00 * id,
            edges(store@, g.directory(), g.spec_geometry(), tops@, id as nat) == Ok::<
                nat,
                HnswError,
            >(count as nat),
        decreases tops.len() - id,
    {
        match check_node(store, g, tops, id) {
            Err(e) => {
                proof {
                    lemma_edges_fail(
                        store@,
                        g.directory(),
                        g.spec_geometry(),
                        tops@,
                        (id + 1) as nat,
                        tops@.len(),
                    );
                }
                return Err(e);
            },
            Ok(k) => {
                proof {
                    let n = (id + 1) as nat;
                    assert(edges(store@, g.directory(), g.spec_geometry(), tops@, n) == Ok::<
                        nat,
                        HnswError,
                    >((count + k) as nat));
                }
                count = count + k;
            },
        }
        id = id + 1;
    }
    Ok(count)
}

/// Counts the occupied slots of the page `id` that have no name.
fn count_orphans_on(p: &Page, id: PageId, names: &Names) -> (n: u64)
    requires
        names.agree(),
    ensures
        n == orphans_on(p@, id, names.list@, slots_of(p@)),
        n <= 0xffff,
{
    let slots: u16 = match apply::slot_count(p) {
        Err(_) => 0,
        Ok(n) => n,
    };
    let mut n: u64 = 0;
    let mut slot: u16 = 0;
    while slot < slots
        invariant
            names.agree(),
            slot <= slots,
            n == orphans_on(p@, id, names.list@, slot as nat),
            n <= slot,
        decreases slots - slot,
    {
        if apply::slot_is_occupied(p, slot) && !names.contains(id, slot) {
            n = n + 1;
        }
        slot = slot + 1;
    }
    n
}

/// Counts the occupied slots of the pages `ids` that have no name.
fn count_orphans(store: &PageStore, ids: &Vec<PageId>, names: &Names) -> (n: u64)
    requires
        names.agree(),
        ids.len() <= u32::MAX,
        forall|i: int| 0 <= i < ids@.len() ==> (#[trigger] ids@[i]).0 < store@.len(),
    ensures
        n == orphans(store@, ids@, names.list@),
{
    let mut n: u64 = 0;
    let mut i: usize = 0;
    assert(ids@.take(0) =~= Seq::<PageId>::empty());
    while i < ids.len()
        invariant
            names.agree(),
            i <= ids.len() <= u32::MAX,
            forall|i: int| 0 <= i < ids@.len() ==> (#[trigger] ids@[i]).0 < store@.len(),
            n == orphans(store@, ids@.take(i as int), names.list@),
            n <= i * 0xffff,
        decreases ids@.len() - i,
    {
        proof {
            assert(ids@.take(i + 1).drop_last() =~= ids@.take(i as int));
            assert(ids@.take(i + 1).last() == ids@[i as int]);
        }
        match store.pin(ids[i]) {
            Err(_) => {},
            Ok(p) => {
                n = n + count_orphans_on(&p, ids[i], names);
            },
        }
        i = i + 1;
    }
    assert(ids@.take(i as int) =~= ids@);
    n
}

/// The entries stand on pages of the store, no more pages than entries.
proof fn lemma_referenced_pages(pages: Seq<Seq<u8>>, dirs: Seq<PageId>, q: MetaParams, n: nat)
    ensures
        entries(pages, dirs, q, n) matches Ok(es) ==> {
            &&& es.len() == n
            &&& referenced(es).len() <= n
            &&& forall|i: int|
                0 <= i < referenced(es).len() ==> (#[trigger] referenced(es)[i]).0 < pages.len()
        },
    decreases n,
{
    if n > 0 {
        lemma_referenced_pages(pages, dirs, q, (n - 1) as nat);
        if let Ok(es) = entries(pages, dirs, q, n) {
            let before = entries(pages, dirs, q, (n - 1) as nat)->Ok_0;
            assert(es.drop_last() =~= before);
        }
    }
}

/// Audits the index whose meta page is `meta_page_id`.
pub fn audit_index(store: &PageStore, meta_page_id: PageId) -> (r: Result<AuditReport, HnswError>)
    ensures
        r == audited(store@, meta_page_id),
{
    let p: Page = match store.pin(meta_page_id) {
        Err(fault) => {
            return Err(HnswError::Storage { context: "audit: pin meta page", fault });
        },
        Ok(p) => p,
    };
    let tag: u16 = page::page_type(&p);
    if tag != PAGE_TYPE_META {
        return Err(
            HnswError::Corrupted(Reason::Audit(AuditFault::NotMeta { page: meta_page_id.0, tag })),
        );
    }
    let q: MetaParams = match meta::read_meta(&p) {
        Err(e) => {
            return Err(e);
        },
        Ok(q) => q,
    };
    let chain: DirChainInfo = match dir::check_dir_chain(
        q.dir_head,
        store,
        "audit: pin directory page",
    ) {
        Err(e) => {
            return Err(e);
        },
        Ok(chain) => chain,
    };
    let hwm: u64 = chain.hwm;
    proof {
        meta::lemma_read_meta_is_valid(p@);
        dir::lemma_chain_is_the_legal_chain(
            store@,
            "audit: pin directory page",
            q.dir_head,
            chain.pages@,
        );
        lemma_referenced_pages(store@, chain.pages@, q, hwm as nat);
    }
    let g: PagedGraph = PagedGraph::new(
        store,
        &chain.pages,
        hwm,
        q.dim,
        q.m,
        q.m_max0,
        q.metric,
    );
    let scan: Scan = match scan_entries(store, &g, &q, hwm) {
        Err(e) => {
            return Err(e);
        },
        Ok(scan) => scan,
    };
    assert(scan.tops.len() == hwm);
    match check_entry_point(&q, &scan.tops) {
        Err(e) => {
            return Err(e);
        },
        Ok(_) => {},
    }
    let edge_count: u64 = match check_edges(store, &g, &scan.tops) {
        Err(e) => {
            return Err(e);
        },
        Ok(n) => n,
    };
    let hidden_high_level_count: u64 = if hwm == 0 {
        0
    } else {
        count_hidden(&scan.tops, q.max_level)
    };
    assert(scan.pages.len() <= u32::MAX);
    let orphan_entry_count: u64 = count_orphans(store, &scan.pages, &scan.names);
    Ok(
        AuditReport {
            node_count: hwm,
            entry_point: q.entry_point,
            max_level: q.max_level,
            live_count: scan.live,
            initializing_count: hwm - scan.live,
            tombstoned_count: scan.tombstoned,
            hidden_high_level_count,
            orphan_entry_count,
            edge_count,
        },
    )
}

} // verus!
