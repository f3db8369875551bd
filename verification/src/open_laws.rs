//! What creating, opening and reading an index give.

use vstd::prelude::*;

use crate::apply;
use crate::bytes;
use crate::dir;
use crate::error::HnswError;
use crate::fault::StorageFault;
use crate::graph::Metric;
use crate::graph::NeighborSelection;
use crate::graph_laws;
use crate::index_laws;
use crate::layout;
use crate::layout::NodeView;
use crate::meta;
use crate::meta::ExpectedParams;
use crate::meta::MetaParams;
use crate::model;
use crate::model::Disk;
use crate::model::IndexView;
use crate::model::LevelChoice;
use crate::model::ProbeView;
use crate::model::World;
use crate::node;
use crate::page;
use crate::page::PAGE_TYPE_META;
use crate::page::PAGE_TYPE_NODE;
use crate::paged;
use crate::params;
use crate::params::HnswParams;
use crate::rng;
use crate::soundness;
use crate::storage;
use crate::storage::PageId;
use crate::storage::Payload;
use crate::storage::PAGE_SIZE;

verus! {

// ---------------------------------------------------------------------
// Reading.
// ---------------------------------------------------------------------

/// What the paged graph reads is the graph: the vector of every node, and its
/// neighbors on every level that it has. A level above a node's top and a
/// node that is not there are errors.
pub proof fn lemma_reads_are_the_graph(w: World, i: u32, level: u8)
    requires
        index_laws::held(w),
    ensures
        ({
            let pages = w.disk.pages;
            let dirs = w.index.dir_pages;
            let geo = model::geometry(w.index.params);
            let g = index_laws::graph_of(w);
            &&& i < w.index.hwm ==> {
                &&& paged::node_vector(pages, dirs, geo.dim, i) == Ok::<Seq<u32>, HnswError>(
                    g[i as int].vector,
                )
                &&& level <= g[i as int].top ==> paged::node_neighbors(pages, dirs, geo, i, level)
                    == Ok::<Seq<u32>, HnswError>(g[i as int].lists[level as int])
                &&& level > g[i as int].top ==> paged::node_neighbors(pages, dirs, geo, i, level)
                    is Err
            }
            &&& i >= w.index.hwm ==> {
                &&& paged::node_vector(pages, dirs, geo.dim, i) is Err
                &&& paged::node_neighbors(pages, dirs, geo, i, level) is Err
            }
        }),
{
    reveal(index_laws::held);
    reveal(index_laws::graph_of);
    let pages = w.disk.pages;
    let dirs = w.index.dir_pages;
    let geo = model::geometry(w.index.params);
    soundness::lemma_resolved(pages, dirs, w.index.hwm, i);
    if i < w.index.hwm {
        let (id, slot) = soundness::place(pages, dirs, i as int);
        assert(soundness::placed(pages, dirs, geo, i as int));
        layout::lemma_entry_reads(pages[id.0 as int], slot, geo, level);
    }
}

/// An inserted vector is read back, and every earlier vector still is.
pub proof fn lemma_vectors_read_back(w: World, vector: Seq<u32>, cs: Seq<LevelChoice>, i: u32)
    requires
        index_laws::held(w),
        model::decided(w, vector, cs),
        i <= w.index.hwm,
    ensures
        model::inserted(w, vector, cs) matches (w1, Ok(id)) ==> paged::node_vector(
            w1.disk.pages,
            w1.index.dir_pages,
            w.index.params.dim,
            i,
        ) == if i == id.0 {
            Ok::<Seq<u32>, HnswError>(vector)
        } else {
            paged::node_vector(w.disk.pages, w.index.dir_pages, w.index.params.dim, i)
        },
{
    if let (w1, Ok(id)) = model::inserted(w, vector, cs) {
        index_laws::lemma_held(w);
        index_laws::lemma_insertion_adds_the_node(w, vector, cs);
        let g = index_laws::graph_of(w);
        let q = w.index.params;
        index_laws::lemma_joined_keeps(g, q, g.len() as u32, cs.len(), cs, cs.len());
        lemma_reads_are_the_graph(w, i, 0);
        lemma_reads_are_the_graph(w1, i, 0);
    }
}

// ---------------------------------------------------------------------
// Creating.
// ---------------------------------------------------------------------

/// A new index is in order and empty, and opening it gives the handle that
/// creating it gave.
pub proof fn lemma_created_is_empty(
    d: Disk,
    p: HnswParams,
    dim: u16,
    metric: Metric,
    selection: NeighborSelection,
    rng_seed: u64,
)
    requires
        storage::sized(d.pages),
        p.valid(),
    ensures
        model::created(d, p, dim, metric, selection, rng_seed) matches (d1, Ok(ix)) ==> {
            let w = World { index: ix, disk: d1 };
            &&& index_laws::held(w)
            &&& index_laws::graph_of(w) == Seq::<NodeView>::empty()
            &&& graph_laws::in_order(index_laws::graph_of(w), ix.params)
            &&& settled(w)
        },
{
    if let (d2, Ok(ix)) = model::created(d, p, dim, metric, selection, rng_seed) {
        let image = page::blank_dir_page(0);
        let (d1, r1) = model::allocated(d, image, "create: allocate directory head");
        let head = r1->Ok_0;
        let q = ix.params;
        let w = World { index: ix, disk: d2 };
        let pages = d2.pages;
        let a = pages[head.0 as int];
        let b = pages[ix.meta_page_id.0 as int];
        page::lemma_blank_dir_page(0);
        page::lemma_blank_page(PAGE_TYPE_META);
        layout::lemma_with_lsn(image, storage::next_lsn(d.log));
        soundness::lemma_dir_page_same(image, a);
        let blank = page::blank_page(PAGE_TYPE_META);
        let written = meta::meta_written(blank, q);
        rng::lemma_top_level_bound(q.m as nat);
        assert(meta::valid(q));
        meta::lemma_written_fields(blank, q);
        meta::lemma_meta_round_trip(blank, q);
        layout::lemma_with_lsn(written, storage::next_lsn(d1.log));
        lemma_meta_page_same(written, b);
        let dirs = seq![head];
        assert(ix.dir_pages == dirs);
        assert(dir::legal_chain(pages, dirs)) by {
            assert(dirs[0].0 < pages.len());
        }
        assert(storage::sized(pages));
        reveal(index_laws::held);
        reveal(index_laws::graph_of);
        assert(index_laws::graph_of(w) =~= Seq::<NodeView>::empty());
        assert(rng::after_levels(rng::seeded(q.rng_seed), q.m, 0) == rng::seeded(q.rng_seed));
    }
}

/// A meta page says the same whatever its log position.
proof fn lemma_meta_page_same(p: Seq<u8>, r: Seq<u8>)
    requires
        p.len() == PAGE_SIZE,
        layout::same_past_lsn(p, r),
    ensures
        meta::meta_of(r) == meta::meta_of(p),
{
    assert(forall|i: int| 8 <= i < PAGE_SIZE ==> r[i] == p[i]);
    assert(storage::pd_flags(r) == storage::pd_flags(p));
    assert forall|metric: Metric, selection: NeighborSelection| #[trigger]
        meta::fields(r, metric, selection) == meta::fields(p, metric, selection) by {
        assert(r[36] == p[36]);
    }
    assert(bytes::le16(r, 54) == bytes::le16(p, 54) && bytes::le16(r, 72) == bytes::le16(p, 72));
    assert(r[37] == p[37] && r[38] == p[38] && r[39] == p[39]);
}

// ---------------------------------------------------------------------
// Opening.
// ---------------------------------------------------------------------

/// The handle stands where a handle on its pages stands: the level draw has
/// made one draw for every node, and entries go to the page of the last one.
pub open spec fn settled(w: World) -> bool {
    let ix = w.index;
    &&& ix.rng == rng::after_levels(rng::seeded(ix.params.rng_seed), ix.params.m, ix.hwm as nat)
    &&& ix.current_node_page == if ix.hwm == 0 {
        None
    } else {
        Some(index_laws::place_of(w, ix.hwm - 1).0)
    }
}

/// Reopening an index that is in order changes nothing and logs nothing. It
/// gives the number of nodes, the directory and the parameters that the old
/// handle has, and a level draw that goes on after the last node's.
pub proof fn lemma_opening_gives_the_handle(w: World, e: ExpectedParams)
    requires
        index_laws::held(w),
        graph_laws::entry_point_ok(index_laws::graph_of(w), w.index.params),
        meta::expectation_fault(w.index.params, e) is None,
    ensures
        ({
            let (d, r) = model::opened(w.disk, w.index.meta_page_id, e);
            &&& d == w.disk
            &&& r matches Ok((ix, warnings)) && {
                &&& ix.params == w.index.params
                &&& ix.meta_page_id == w.index.meta_page_id
                &&& ix.dir_head == w.index.dir_head
                &&& ix.dir_pages == w.index.dir_pages
                &&& ix.hwm == w.index.hwm
                &&& settled(World { index: ix, ..w })
                &&& index_laws::held(World { index: ix, ..w })
                &&& index_laws::graph_of(World { index: ix, ..w }) == index_laws::graph_of(w)
                &&& settled(w) ==> ix == IndexView {
                    probe: ProbeView { marks: Seq::empty(), crash_after: None, logging: false },
                    ..w.index
                }
            }
        }),
{
    reveal(index_laws::held);
    reveal(index_laws::graph_of);
    let ix = w.index;
    let pages = w.disk.pages;
    let dirs = ix.dir_pages;
    let context = "open: pin directory page";
    dir::lemma_chain_is_the_legal_chain(pages, context, ix.dir_head, dirs);
    if ix.hwm > 0 {
        let last = (ix.hwm - 1) as u64;
        soundness::lemma_dir_position(pages, dirs, ix.hwm, last as int);
        soundness::lemma_chain_pages(pages, dirs, last as int / 813);
        assert(soundness::placed(pages, dirs, model::geometry(ix.params), last as int));
        assert(model::last_node_page(pages, dirs, ix.hwm) == Ok::<Option<PageId>, HnswError>(
            Some(soundness::place(pages, dirs, last as int).0),
        ));
    }
}

/// Another page in place of the meta page leaves the directory as it is.
pub proof fn lemma_chain_without_meta(
    pages: Seq<Seq<u8>>,
    context: &'static str,
    head: PageId,
    meta_id: PageId,
    r: Seq<u8>,
)
    requires
        head.0 != storage::INVALID_PAGE,
        meta_id.0 < pages.len(),
        storage::pd_flags(pages[meta_id.0 as int]) == PAGE_TYPE_META,
        dir::chain(pages, context, head) is Ok,
    ensures
        dir::chain(pages.update(meta_id.0 as int, r), context, head) == dir::chain(
            pages,
            context,
            head,
        ),
        forall|k: int|
            0 <= k < dir::chain(pages, context, head)->Ok_0.0.len() ==> (
            #[trigger] dir::chain(pages, context, head)->Ok_0.0[k]) != meta_id,
{
    let other = pages.update(meta_id.0 as int, r);
    let (dirs, hwm) = dir::chain(pages, context, head)->Ok_0;
    dir::lemma_chain_is_the_legal_chain(pages, context, head, dirs);
    assert forall|k: int| 0 <= k < dirs.len() implies (#[trigger] dirs[k]) != meta_id && other[
    dirs[k].0 as int] == pages[dirs[k].0 as int] by {
        soundness::lemma_chain_pages(pages, dirs, k);
    }
    soundness::lemma_chain_pages(pages, dirs, 0);
    soundness::lemma_same_directory(pages, other, dirs, hwm);
    dir::lemma_chain_is_the_legal_chain(other, context, head, dirs);
}

/// Opening repairs at most once: opening what an opening left gives the same
/// handle and the same warnings, changes nothing and logs nothing.
pub proof fn lemma_opening_twice(d: Disk, meta_id: PageId, e: ExpectedParams)
    requires
        storage::sized(d.pages),
    ensures
        model::opened(d, meta_id, e) matches (d1, Ok(r)) ==> model::opened(d1, meta_id, e) == (
            d1,
            Ok::<(IndexView, Seq<Seq<char>>), HnswError>(r),
        ),
{
    if let (d1, Ok(r)) = model::opened(d, meta_id, e) {
        let p = d.pages[meta_id.0 as int];
        let q = meta::meta_of(p)->Ok_0;
        let context = "open: pin directory page";
        let (dirs, hwm) = dir::chain(d.pages, context, q.dir_head)->Ok_0;
        meta::lemma_read_meta_is_valid(p);
        if hwm > 0 && q.entry_point == params::INVALID_NODE {
            let q1 = model::repaired(d, meta_id, q, hwm).1->Ok_0;
            let lsn = storage::next_lsn(d.log);
            rng::lemma_top_level_bound(q.m as nat);
            assert(meta::valid(q1));
            index_laws::lemma_meta_page(p, q, 0, q1.max_level, lsn);
            let r1 = storage::with_lsn(meta::meta_applied(p, 0, q1.max_level), lsn);
            assert(d1.pages == d.pages.update(meta_id.0 as int, r1));
            lemma_chain_without_meta(d.pages, context, q.dir_head, meta_id, r1);
            model::lemma_chain_reaches(d.pages, context, q.dir_head);
        }
    }
}

/// The level of the first node, where the directory's first entry names an
/// occupied slot of a node page.
pub open spec fn first_level(pages: Seq<Seq<u8>>, q: MetaParams) -> Option<u8> {
    match dir::entry(pages[q.dir_head.0 as int], 0) {
        Err(_) => None,
        Ok((id, slot)) => match storage::fetched(pages, id) {
            Err(_) => None,
            Ok(p) => if storage::pd_flags(p) != PAGE_TYPE_NODE {
                None
            } else {
                match apply::state_of(p, slot, q.dim, "entry_top_level") {
                    Err(_) => None,
                    Ok(b) => Some(node::state_top(b)),
                }
            },
        },
    }
}

/// Opening an index that has nodes and no entry point repairs it: the first
/// node becomes the entry point, with its level. One record says so and no
/// other is logged, and only the meta page changes; its image goes ahead of
/// the record if it is due. A second opening gives the same handle and the
/// same warnings, changes nothing and logs nothing. Where the log has no room
/// for the record, it is refused and nothing changes.
pub proof fn lemma_opening_repairs_the_entry_point(
    d: Disk,
    meta_id: PageId,
    e: ExpectedParams,
    q: MetaParams,
    dirs: Seq<PageId>,
    hwm: u64,
    t: u8,
)
    requires
        storage::sized(d.pages),
        d.pages.len() <= storage::INVALID_PAGE,
        meta_id.0 < d.pages.len(),
        meta::meta_of(d.pages[meta_id.0 as int]) == Ok::<MetaParams, HnswError>(q),
        q.entry_point == params::INVALID_NODE,
        meta::expectation_fault(q, e) is None,
        dir::chain(d.pages, "open: pin directory page", q.dir_head) == Ok::<
            (Seq<PageId>, u64),
            HnswError,
        >((dirs, hwm)),
        hwm > 0,
        first_level(d.pages, q) == Some(t),
        t <= rng::top_level(q.m as nat),
    ensures
        ({
            let (d1, r) = model::opened(d, meta_id, e);
            let payload = Payload::MetaUpdate {
                meta_page_id: meta_id,
                entry_point: 0,
                max_level: t,
            };
            let p = d.pages[meta_id.0 as int];
            if d.log.len() >= storage::LOG_CAPACITY {
                &&& d1 == d
                &&& r == Err::<(IndexView, Seq<Seq<char>>), HnswError>(
                    HnswError::Storage {
                        context: "open-repair: WAL append",
                        fault: StorageFault::LogFull,
                    },
                )
            } else {
                &&& r matches Ok((ix, warnings))
                &&& ix.params == (MetaParams { entry_point: 0, max_level: t, ..q })
                &&& ix.hwm == hwm
                &&& ix.dir_pages == dirs
                &&& warnings == meta::warning_texts(q, e)
                &&& d1 == (Disk {
                    pages: d.pages.update(
                        meta_id.0 as int,
                        storage::with_lsn(meta::meta_applied(p, 0, t), storage::next_lsn(d.log)),
                    ),
                    log: d.log.push(storage::utility_record(d.log, payload)),
                    images: storage::imaged(d.images, d.checkpoint, d.log, meta_id, p),
                    ..d
                })
                &&& model::opened(d1, meta_id, e) == (d1, r)
            }
        }),
{
    let context = "open: pin directory page";
    let p = d.pages[meta_id.0 as int];
    let (d1, r) = model::opened(d, meta_id, e);
    let last = (hwm - 1) as u64;
    meta::lemma_read_meta_is_valid(p);
    rng::lemma_top_level_bound(q.m as nat);
    dir::lemma_chain_is_the_legal_chain(d.pages, context, q.dir_head, dirs);
    soundness::lemma_dir_position(d.pages, dirs, hwm, last as int);
    soundness::lemma_chain_pages(d.pages, dirs, last as int / 813);
    let (d2, s) = model::repaired(d, meta_id, q, hwm);
    if d.log.len() < storage::LOG_CAPACITY {
        let lsn = storage::next_lsn(d.log);
        let image = storage::with_lsn(meta::meta_applied(p, 0, t), lsn);
        assert(d2.pages == d.pages.update(meta_id.0 as int, image));
        lemma_chain_without_meta(d.pages, context, q.dir_head, meta_id, image);
        assert(dirs[last as int / 813] != meta_id);
        assert(model::last_node_page(d2.pages, dirs, hwm) is Ok);
        lemma_opening_twice(d, meta_id, e);
    }
}

/// A successful insertion leaves the handle standing where a handle on its
/// pages stands.
pub proof fn lemma_insertion_settles(w: World, vector: Seq<u32>, cs: Seq<LevelChoice>)
    requires
        index_laws::held(w),
        settled(w),
        model::decided(w, vector, cs),
    ensures
        model::inserted(w, vector, cs) matches (w1, Ok(_)) ==> settled(w1),
{
    if let (w1, Ok(id)) = model::inserted(w, vector, cs) {
        index_laws::lemma_held(w);
        index_laws::lemma_insertion_adds_the_node(w, vector, cs);
        assert((w1.index.hwm - 1) as nat == w.index.hwm as nat);
    }
}

/// The level of every node is a function of the seed, of `m` and of the
/// node's id alone, whatever the vectors and however often the index was
/// reopened in between.
pub proof fn lemma_level_stream(w: World, vector: Seq<u32>, cs: Seq<LevelChoice>)
    requires
        index_laws::held(w),
        settled(w),
        model::decided(w, vector, cs),
    ensures
        model::inserted(w, vector, cs) matches (w1, Ok(id)) ==> index_laws::graph_of(
            w1,
        )[id.0 as int].top == rng::level_draw(
            rng::after_levels(
                rng::seeded(w.index.params.rng_seed),
                w.index.params.m,
                id.0 as nat,
            ),
            w.index.params.m,
        ).0,
{
    if let (w1, Ok(id)) = model::inserted(w, vector, cs) {
        index_laws::lemma_held(w);
        index_laws::lemma_insertion_adds_the_node(w, vector, cs);
        rng::lemma_level_draw_bound(w.index.rng, w.index.params.m);
        let g = index_laws::graph_of(w);
        index_laws::lemma_joined_keeps(
            g,
            w.index.params,
            g.len() as u32,
            cs.len(),
            cs,
            cs.len(),
        );
    }
}

} // verus!
