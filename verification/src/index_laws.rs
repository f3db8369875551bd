//! What the operations of an index do to its graph.

use vstd::prelude::*;

use crate::apply;
use crate::bytes;
use crate::dir;
use crate::entry_laws;
use crate::error::HnswError;
use crate::layout;
use crate::layout::NodeView;
use crate::meta;
use crate::meta::MetaParams;
use crate::model;
use crate::model::IndexView;
use crate::model::LevelChoice;
use crate::model::PendingInsert;
use crate::model::ProbeMark;
use crate::model::World;
use crate::node;
use crate::page;
use crate::page::PAGE_TYPE_DIR;
use crate::page::PAGE_TYPE_META;
use crate::page::PAGE_TYPE_NODE;
use crate::params;
use crate::params::NodeId;
use crate::rng;
use crate::soundness;
use crate::storage;
use crate::storage::Lsn;
use crate::storage::PageId;
use crate::storage::PAGE_SIZE;

verus! {

/// The handle and the pages agree: the meta page holds the handle's
/// parameters, the directory is the handle's, and the nodes are in order.
#[verifier::opaque]
pub open spec fn held(w: World) -> bool {
    let ix = w.index;
    let pages = w.disk.pages;
    &&& model::index_ok(ix)
    &&& soundness::laid_out(pages, ix.dir_pages, model::geometry(ix.params), ix.hwm)
    &&& ix.dir_pages[0] == ix.dir_head
    &&& ix.meta_page_id.0 < pages.len()
    &&& ix.meta_page_id.0 != storage::INVALID_PAGE
    &&& meta::meta_of(pages[ix.meta_page_id.0 as int]) == Ok::<MetaParams, HnswError>(ix.params)
    &&& ix.current_node_page matches Some(id) ==> id.0 < pages.len() && layout::node_page_ok(
        pages[id.0 as int],
    )
}

/// The graph of an index.
#[verifier::opaque]
pub open spec fn graph_of(w: World) -> Seq<NodeView> {
    soundness::graph(
        w.disk.pages,
        w.index.dir_pages,
        model::geometry(w.index.params),
        w.index.hwm,
    )
}

/// The place of a node of an index.
pub open spec fn place_of(w: World, i: int) -> (PageId, u16) {
    soundness::place(w.disk.pages, w.index.dir_pages, i)
}

/// The graph has as many nodes as the handle says, and the parameters are
/// those of an index.
pub proof fn lemma_held(w: World)
    requires
        held(w),
    ensures
        graph_of(w).len() == w.index.hwm,
        w.index.hwm <= u32::MAX,
        w.index.params.dim >= 1,
        2 <= w.index.params.m <= w.index.params.m_max0,
{
    reveal(held);
    reveal(graph_of);
}

/// The probe and the durable part of the log are no part of what a handle
/// and its pages agree on.
pub proof fn lemma_held_by_pages(w: World, w1: World)
    requires
        w1.disk.pages == w.disk.pages,
        w1.index == (IndexView { probe: w1.index.probe, rng: w1.index.rng, ..w.index }),
    ensures
        held(w1) == held(w),
        graph_of(w1) == graph_of(w),
        forall|j: int| #[trigger] place_of(w1, j) == place_of(w, j),
{
    reveal(held);
    reveal(graph_of);
}

// ---------------------------------------------------------------------
// The steps up to the directory.
// ---------------------------------------------------------------------

/// Another page at the end leaves the index as it is.
pub proof fn lemma_page_pushed(w: World, w1: World, q: Seq<u8>)
    requires
        held(w),
        q.len() == PAGE_SIZE,
        w1.disk.pages == w.disk.pages.push(q),
        w1.index == w.index,
    ensures
        held(w1),
        graph_of(w1) == graph_of(w),
{
    reveal(held);
    reveal(graph_of);
    let geo = model::geometry(w.index.params);
    soundness::lemma_page_added(w.disk.pages, w.index.dir_pages, geo, w.index.hwm, q);
}

/// One more page leaves the index in order.
pub proof fn lemma_page_allocated(w: World, image: Seq<u8>, context: &'static str)
    requires
        held(w),
        image.len() == PAGE_SIZE,
    ensures
        model::allocated(w.disk, image, context) matches (disk, Ok(id)) ==> {
            let w1 = World { disk, ..w };
            &&& held(w1)
            &&& graph_of(w1) == graph_of(w)
            &&& id.0 == w.disk.pages.len()
            &&& id.0 != storage::INVALID_PAGE
            &&& disk.pages == w.disk.pages.push(disk.pages[id.0 as int])
            &&& layout::same_past_lsn(image, disk.pages[id.0 as int])
        },
{
    if let (disk, Ok(_)) = model::allocated(w.disk, image, context) {
        let lsn = storage::next_lsn(w.disk.log);
        layout::lemma_with_lsn(image, lsn);
        lemma_page_pushed(w, World { disk, ..w }, storage::with_lsn(image, lsn));
    }
}

/// The first step leaves the index in order, with the page that it gives as
/// the one to append to.
pub proof fn lemma_node_page_ready(w: World, len: usize)
    requires
        held(w),
    ensures
        model::node_page_ready(w, len) matches (w1, Ok(id)) ==> {
            &&& held(w1)
            &&& graph_of(w1) == graph_of(w)
            &&& w1.index == IndexView {
                probe: w1.index.probe,
                current_node_page: Some(id),
                ..w.index
            }
        },
{
    reveal(model::node_page_ready);
    let (w1, r) = model::node_page_ready(w, len);
    if r is Ok && !(w1 == w) {
        let image = page::blank_page(PAGE_TYPE_NODE);
        let context = "alloc_node_page: allocate";
        layout::lemma_blank_node_page();
        lemma_page_allocated(w, image, context);
        let (disk, a) = model::allocated(w.disk, image, context);
        let w2 = World { disk, ..w };
        let id = a->Ok_0;
        layout::lemma_lsn_keeps_entries(image, disk.pages[id.0 as int]);
        let w3 = World { index: IndexView { current_node_page: Some(id), ..w.index }, disk };
        assert(held(w3) && graph_of(w3) == graph_of(w2)) by {
            reveal(held);
            reveal(graph_of);
        }
        lemma_held_by_pages(w3, w1);
    }
}

/// Linking a blank page behind a full tail leaves the index in order.
pub proof fn lemma_tail_linked(w: World, next: PageId)
    requires
        held(w),
        page::spec_dir_count(w.disk.pages[w.index.dir_pages.last().0 as int]) == 813,
        next.0 < w.disk.pages.len(),
        next.0 != storage::INVALID_PAGE,
        !w.index.dir_pages.contains(next),
        layout::same_past_lsn(
            page::blank_dir_page(w.index.dir_pages.len() as u64),
            w.disk.pages[next.0 as int],
        ),
    ensures
        model::dir_page_linked(
            w,
            w.index.dir_pages.last(),
            w.disk.pages[w.index.dir_pages.last().0 as int],
            next,
        ) matches (w1, Ok(tail)) ==> {
            &&& held(w1)
            &&& graph_of(w1) == graph_of(w)
            &&& tail == w1.index.dir_pages.last()
            &&& w1.index == IndexView {
                probe: w1.index.probe,
                dir_pages: w.index.dir_pages.push(next),
                ..w.index
            }
        },
{
    reveal(held);
    reveal(graph_of);
    let ix = w.index;
    let pages = w.disk.pages;
    let geo = model::geometry(ix.params);
    let dirs = ix.dir_pages;
    let tail = dirs.last();
    soundness::lemma_chain_pages(pages, dirs, dirs.len() - 1);
    let p = pages[tail.0 as int];
    assert(p.len() == PAGE_SIZE);
    let (w1, r) = model::dir_page_linked(w, tail, p, next);
    if r is Ok {
        let lsn = storage::next_lsn(w.disk.log);
        let linked = apply::dir_linked(p, next);
        let q = storage::with_lsn(linked, lsn);
        entry_laws::lemma_dir_link(p, next, 0);
        layout::lemma_with_lsn(linked, lsn);
        soundness::lemma_dir_page_linked(pages, dirs, geo, ix.hwm, next, q);
        assert(w1.disk.pages == pages.update(tail.0 as int, q));
        assert(dirs.push(next)[0] == dirs[0]);
        assert(storage::pd_flags(p) == PAGE_TYPE_DIR);
        assert(storage::pd_flags(pages[ix.meta_page_id.0 as int]) == PAGE_TYPE_META);
    }
}

/// A page that is not there yet is none of the directory's.
pub proof fn lemma_fresh_page(w: World, next: PageId)
    requires
        held(w),
        next.0 >= w.disk.pages.len(),
    ensures
        w.index.dir_pages.last().0 < w.disk.pages.len(),
        !w.index.dir_pages.contains(next),
{
    reveal(held);
    let pages = w.disk.pages;
    let dirs = w.index.dir_pages;
    soundness::lemma_chain_pages(pages, dirs, dirs.len() - 1);
    if dirs.contains(next) {
        let k = choose|k: int| 0 <= k < dirs.len() && dirs[k] == next;
        soundness::lemma_chain_pages(pages, dirs, k);
    }
}

/// The second step leaves the index in order; the page that it gives is the
/// last of the directory.
pub proof fn lemma_dir_tail_ready(w: World)
    requires
        held(w),
    ensures
        model::dir_tail_ready(w) matches (w1, Ok(tail)) ==> {
            &&& held(w1)
            &&& graph_of(w1) == graph_of(w)
            &&& tail == w1.index.dir_pages.last()
            &&& w1.index == IndexView {
                probe: w1.index.probe,
                dir_pages: w1.index.dir_pages,
                ..w.index
            }
        },
{
    reveal(model::dir_tail_ready);
    let ix = w.index;
    let pages = w.disk.pages;
    let dirs = ix.dir_pages;
    let tail = dirs.last();
    let (w1, r) = model::dir_tail_ready(w);
    if r is Ok && page::spec_dir_count(pages[tail.0 as int]) == 813 {
        let image = page::blank_dir_page(dirs.len() as u64);
        let context = "alloc_dir_page: allocate";
        page::lemma_blank_dir_page(dirs.len() as u64);
        lemma_page_allocated(w, image, context);
        let (disk, a) = model::allocated(w.disk, image, context);
        let next = a->Ok_0;
        let w2 = World { disk, ..w };
        let w3 = model::marked(w2, ProbeMark::DirPageInit).0;
        lemma_held_by_pages(w2, w3);
        lemma_fresh_page(w, next);
        lemma_tail_linked(w3, next);
    }
}

/// The third step leaves the index in order, with one more entry on the page
/// that is appended to: a fresh one, in a slot that no node has.
pub proof fn lemma_entry_created(w: World, id: PageId, node_id: u32, level: u8, vector: Seq<u32>)
    requires
        held(w),
        w.index.current_node_page == Some(id),
    ensures
        model::entry_created(w, id, node_id, level, vector) matches (w1, Ok(slot)) ==> {
            let geo = model::geometry(w.index.params);
            &&& held(w1)
            &&& graph_of(w1) == graph_of(w)
            &&& w1.index == IndexView { probe: w1.index.probe, ..w.index }
            &&& vector.len() == geo.dim
            &&& level <= 63
            &&& layout::slot_bytes(w1.disk.pages[id.0 as int], slot) == Some(
                apply::fresh_entry(level, vector, geo.size(level)),
            )
            &&& forall|i: int| 0 <= i < w.index.hwm ==> #[trigger] place_of(w1, i) != (id, slot)
        },
{
    reveal(model::entry_created);
    reveal(held);
    reveal(graph_of);
    let ix = w.index;
    let pages = w.disk.pages;
    let geo = model::geometry(ix.params);
    let p = pages[id.0 as int];
    let (w1, r) = model::entry_created(w, id, node_id, level, vector);
    if let Ok(slot) = r {
        let a = apply::node_applied(p, slot, level, geo, vector)->Ok_0;
        assert(apply::lp(p, slot) is None);
        layout::lemma_created_entry(p, slot, level, geo, vector);
        let lsn = storage::next_lsn(w.disk.log);
        let q = storage::with_lsn(a, lsn);
        layout::lemma_with_lsn(a, lsn);
        layout::lemma_lsn_keeps_entries(a, q);
        assert forall|s: u16|
            layout::slot_bytes(p, s) is Some implies #[trigger] layout::slot_bytes(q, s)
            == layout::slot_bytes(p, s) by {
            assert(layout::slot_bytes(q, s) == layout::slot_bytes(a, s));
        }
        soundness::lemma_entries_kept(pages, ix.dir_pages, geo, ix.hwm, id, q);
        assert(w1.disk.pages == pages.update(id.0 as int, q));
        assert(layout::slot_bytes(q, slot) == layout::slot_bytes(a, slot));
        assert forall|i: int| 0 <= i < ix.hwm implies #[trigger] place_of(w1, i) != (id, slot) by {
            assert(soundness::place(w1.disk.pages, ix.dir_pages, i) == soundness::place(
                pages,
                ix.dir_pages,
                i,
            ));
            assert(soundness::placed(pages, ix.dir_pages, geo, i));
        }
    }
}

/// One more place on the tail of the directory is one more node.
proof fn lemma_tail_extended(w: World, w1: World, id: PageId, slot: u16, e: Seq<u8>, q: Seq<u8>)
    requires
        held(w),
        w.index.hwm < u32::MAX,
        w.index.current_node_page == Some(id),
        layout::slot_bytes(w.disk.pages[id.0 as int], slot) == Some(e),
        layout::entry_ok(e, model::geometry(w.index.params)),
        forall|i: int| 0 <= i < w.index.hwm ==> #[trigger] place_of(w, i) != (id, slot),
        soundness::extended(w.disk.pages[w.index.dir_pages.last().0 as int], q, (id, slot)),
        w1.disk.pages == w.disk.pages.update(w.index.dir_pages.last().0 as int, q),
        w1.index == (IndexView {
            probe: w1.index.probe,
            hwm: (w.index.hwm + 1) as u64,
            ..w.index
        }),
    ensures
        held(w1),
        graph_of(w1) == graph_of(w).push(layout::node_in(e, model::geometry(w.index.params))),
        place_of(w1, w.index.hwm as int) == (id, slot),
{
    reveal(held);
    reveal(graph_of);
    let ix = w.index;
    let pages = w.disk.pages;
    let geo = model::geometry(ix.params);
    let dirs = ix.dir_pages;
    soundness::lemma_chain_pages(pages, dirs, dirs.len() - 1);
    assert forall|i: int| 0 <= i < ix.hwm implies #[trigger] soundness::place(pages, dirs, i) != (
        id,
        slot,
    ) by {
        assert(place_of(w, i) != (id, slot));
    }
    soundness::lemma_node_added(pages, dirs, geo, ix.hwm, id, slot, q);
}

/// The fourth step adds the entry's node to the graph.
pub proof fn lemma_place_published(w: World, id: PageId, slot: u16, e: Seq<u8>)
    requires
        held(w),
        w.index.hwm < u32::MAX,
        w.index.current_node_page == Some(id),
        layout::slot_bytes(w.disk.pages[id.0 as int], slot) == Some(e),
        layout::entry_ok(e, model::geometry(w.index.params)),
        forall|i: int| 0 <= i < w.index.hwm ==> #[trigger] place_of(w, i) != (id, slot),
    ensures
        model::place_published(
            w,
            w.index.dir_pages.last(),
            w.index.hwm as u32,
            id,
            slot,
        ) matches (w1, Ok(_)) ==> {
            &&& held(w1)
            &&& graph_of(w1) == graph_of(w).push(
                layout::node_in(e, model::geometry(w.index.params)),
            )
            &&& w1.index == IndexView {
                probe: w1.index.probe,
                hwm: (w.index.hwm + 1) as u64,
                ..w.index
            }
            &&& place_of(w1, w.index.hwm as int) == (id, slot)
        },
{
    reveal(model::place_published);
    let ix = w.index;
    let pages = w.disk.pages;
    let dirs = ix.dir_pages;
    let tail = dirs.last();
    let p = pages[tail.0 as int];
    assert(tail.0 < pages.len() && p.len() == PAGE_SIZE && dir::tail_hwm(p) == ix.hwm) by {
        reveal(held);
        soundness::lemma_chain_pages(pages, dirs, dirs.len() - 1);
    }
    let (w1, r) = model::place_published(w, tail, ix.hwm as u32, id, slot);
    if r is Ok {
        let a = apply::dir_appended(p, ix.hwm as u32, id, slot)->Ok_0.1;
        entry_laws::lemma_dir_append_reads_back(p, ix.hwm as u32, id, slot, 0);
        let lsn = storage::next_lsn(w.disk.log);
        let q = storage::with_lsn(a, lsn);
        layout::lemma_with_lsn(a, lsn);
        soundness::lemma_extended(p, ix.hwm as u32, id, slot, q);
        assert(w1.disk.pages == pages.update(tail.0 as int, q));
        lemma_tail_extended(w, w1, id, slot, e, q);
    }
}

/// The steps up to the fourth add a fresh node with the drawn level to the
/// graph; its place is the pending insertion's.
pub proof fn lemma_begun_adds_a_fresh_node(w: World, vector: Seq<u32>)
    requires
        held(w),
    ensures
        model::begun(w, vector) matches (w1, Ok(pending)) ==> {
            &&& held(w1)
            &&& graph_of(w1) == graph_of(w).push(layout::fresh_node(pending.level, vector))
            &&& place_of(w1, w.index.hwm as int) == (pending.page_id, pending.slot)
            &&& pending.node_id.0 == w.index.hwm
            &&& pending.level == rng::level_draw(w.index.rng, w.index.params.m).0
            &&& pending.level <= 63
            &&& vector.len() == w.index.params.dim
            &&& w1.index.params == w.index.params
            &&& w1.index.hwm == w.index.hwm + 1
            &&& w1.index.meta_page_id == w.index.meta_page_id
            &&& w1.index.rng == rng::level_draw(w.index.rng, w.index.params.m).1
            &&& w1.index.current_node_page == Some(pending.page_id)
        },
{
    reveal(model::begun);
    let ix = w.index;
    let geo = model::geometry(ix.params);
    if let (w5, Ok(pending)) = model::begun(w, vector) {
        lemma_held(w);
        rng::lemma_level_draw_bound(ix.rng, ix.params.m);
        let node_id = ix.hwm as u32;
        let (w1, level) = model::level_drawn(w);
        lemma_held_by_pages(w, w1);
        let len = geo.size(level) as usize;
        lemma_node_page_ready(w1, len);
        let (w2, r2) = model::node_page_ready(w1, len);
        let id = r2->Ok_0;
        lemma_dir_tail_ready(w2);
        let (w3, r3) = model::dir_tail_ready(w2);
        let tail = r3->Ok_0;
        lemma_entry_created(w3, id, node_id, level, vector);
        let (w4, r4) = model::entry_created(w3, id, node_id, level, vector);
        let slot = r4->Ok_0;
        let e = apply::fresh_entry(level, vector, geo.size(level));
        layout::lemma_fresh_node(geo, level, vector);
        lemma_place_published(w4, id, slot, e);
    }
}

// ---------------------------------------------------------------------
// Edges.
// ---------------------------------------------------------------------

/// What the pages say of a node that is there: its page is a node page in
/// order, and its slot holds an entry in order, whose node it is.
pub proof fn lemma_node_there(w: World, i: int)
    requires
        held(w),
        0 <= i < w.index.hwm,
    ensures
        ({
            let (id, slot) = place_of(w, i);
            let geo = model::geometry(w.index.params);
            &&& id.0 < w.disk.pages.len()
            &&& layout::node_page_ok(w.disk.pages[id.0 as int])
            &&& layout::slot_bytes(w.disk.pages[id.0 as int], slot) matches Some(e)
            &&& layout::entry_ok(e, geo)
            &&& graph_of(w)[i] == layout::node_in(e, geo)
            &&& graph_of(w)[i].lists.len() == graph_of(w)[i].top + 1
        }),
{
    reveal(held);
    reveal(graph_of);
    let geo = model::geometry(w.index.params);
    assert(soundness::placed(w.disk.pages, w.index.dir_pages, geo, i));
}

/// A neighbor whose list can be planned is a node of the graph that has the
/// level, and what is planned is its list with the new node in it.
pub proof fn lemma_edge_planned(w: World, node_id: u32, nb: u32, level: u8)
    requires
        held(w),
    ensures
        model::edge_planned(w, node_id, nb, level) matches Ok(plan) ==> {
            let g = graph_of(w);
            &&& nb < w.index.hwm
            &&& level <= g[nb as int].top
            &&& g[nb as int].lists.len() == g[nb as int].top + 1
            &&& (plan.page_id, plan.slot) == place_of(w, nb as int)
            &&& plan.list == g[nb as int].lists[level as int].insert(
                model::rank(g[nb as int].lists[level as int], node_id) as int,
                node_id,
            )
            &&& plan.over == (plan.list.len() > model::geometry(w.index.params).cap(level))
        },
{
    reveal(held);
    reveal(graph_of);
    let ix = w.index;
    let pages = w.disk.pages;
    let geo = model::geometry(ix.params);
    if model::edge_planned(w, node_id, nb, level) is Ok {
        soundness::lemma_resolved(pages, ix.dir_pages, ix.hwm, nb);
        lemma_node_there(w, nb as int);
        let (id, slot) = place_of(w, nb as int);
        layout::lemma_entry_reads(pages[id.0 as int], slot, geo, level);
    }
}

/// A list that node `i` may have on a level: ascending, without the node
/// itself, and no longer than the level has room for.
pub open spec fn list_ok(q: MetaParams, i: int, level: int, list: Seq<u32>) -> bool {
    &&& storage::ascending(list)
    &&& !list.contains(i as u32)
    &&& list.len() <= model::level_cap(q, level as u8)
}

/// Every list of the graph is one that its node may have.
pub open spec fn lists_ok(g: Seq<NodeView>, q: MetaParams) -> bool {
    forall|i: int, l: int|
        0 <= i < g.len() && 0 <= l < g[i].lists.len() ==> list_ok(q, i, l, #[trigger] g[i].lists[l])
}

/// Another list that its node may have leaves every list in order.
proof fn lemma_lists_ok(g: Seq<NodeView>, q: MetaParams, i: int, level: int, list: Seq<u32>)
    requires
        lists_ok(g, q),
        0 <= i < g.len(),
        0 <= level < g[i].lists.len(),
        list_ok(q, i, level, list),
    ensures
        lists_ok(g.update(i, layout::with_list(g[i], level, list)), q),
{
    let h = g.update(i, layout::with_list(g[i], level, list));
    assert forall|k: int, l: int| 0 <= k < h.len() && 0 <= l < h[k].lists.len() implies list_ok(
        q,
        k,
        l,
        #[trigger] h[k].lists[l],
    ) by {
        assert(list_ok(q, k, l, g[k].lists[l]));
    }
}

/// Swapping the entry of a node swaps the node in the graph.
proof fn lemma_entry_swapped(w: World, w1: World, i: int, q: Seq<u8>, n: NodeView)
    requires
        held(w),
        0 <= i < w.index.hwm,
        w1.disk.pages == w.disk.pages.update(place_of(w, i).0.0 as int, q),
        w1.index == (IndexView { probe: w1.index.probe, ..w.index }),
        layout::entry_swapped(
            w.disk.pages[place_of(w, i).0.0 as int],
            q,
            place_of(w, i).1,
            model::geometry(w.index.params),
            n,
        ),
    ensures
        held(w1),
        graph_of(w1) == graph_of(w).update(i, n),
        forall|j: int| 0 <= j < w.index.hwm ==> #[trigger] place_of(w1, j) == place_of(w, j),
{
    reveal(held);
    reveal(graph_of);
    let ix = w.index;
    let pages = w.disk.pages;
    let geo = model::geometry(ix.params);
    let (id, slot) = place_of(w, i);
    let f = layout::slot_bytes(q, slot)->0;
    assert(soundness::placed(pages, ix.dir_pages, geo, i));
    soundness::lemma_entry_replaced(pages, ix.dir_pages, geo, ix.hwm, i, q, f);
    assert forall|j: int| 0 <= j < ix.hwm implies #[trigger] place_of(w1, j) == place_of(w, j) by {
        assert(soundness::place(w1.disk.pages, ix.dir_pages, j) == soundness::place(
            pages,
            ix.dir_pages,
            j,
        ));
    }
}

/// Writing a list of a node that has the level replaces that list in the
/// graph, and nothing else. The list is ascending, does not hold its owner,
/// and fits its level.
pub proof fn lemma_list_written(
    w: World,
    id: PageId,
    slot: u16,
    owner: u32,
    level: u8,
    list: Seq<u32>,
    contexts: (&'static str, &'static str, &'static str),
    mark: ProbeMark,
)
    requires
        held(w),
        owner < w.index.hwm,
        (id, slot) == place_of(w, owner as int),
        level <= graph_of(w)[owner as int].top,
    ensures
        model::list_written(w, id, slot, owner, level, list, contexts, mark) matches (w1, Ok(_))
            ==> {
            &&& held(w1)
            &&& graph_of(w1) == graph_of(w).update(
                owner as int,
                layout::with_list(graph_of(w)[owner as int], level as int, list),
            )
            &&& w1.index == IndexView { probe: w1.index.probe, ..w.index }
            &&& forall|j: int| 0 <= j < w.index.hwm ==> #[trigger] place_of(w1, j) == place_of(w, j)
            &&& list_ok(w.index.params, owner as int, level as int, list)
            &&& lists_ok(graph_of(w), w.index.params) ==> lists_ok(graph_of(w1), w.index.params)
        },
{
    reveal(model::list_written);
    let ix = w.index;
    let pages = w.disk.pages;
    let geo = model::geometry(ix.params);
    let p = pages[id.0 as int];
    lemma_node_there(w, owner as int);
    let (w1, r) = model::list_written(w, id, slot, owner, level, list, contexts, mark);
    if r is Ok {
        let lsn = storage::next_lsn(w.disk.log);
        let q = storage::with_lsn(apply::neighbors_set(p, slot, geo, level, list)->Ok_0, lsn);
        layout::lemma_list_swapped(p, slot, geo, level, list, lsn);
        assert(w1.disk.pages == pages.update(id.0 as int, q));
        lemma_entry_swapped(
            w,
            w1,
            owner as int,
            q,
            layout::with_list(graph_of(w)[owner as int], level as int, list),
        );
        assert(list_ok(w.index.params, owner as int, level as int, list));
        lemma_held(w);
        if lists_ok(graph_of(w), ix.params) {
            lemma_lists_ok(graph_of(w), ix.params, owner as int, level as int, list);
        }
    }
}

// ---------------------------------------------------------------------
// An insertion into the graph.
// ---------------------------------------------------------------------

/// A list with `x` in its place.
pub open spec fn with_member(list: Seq<u32>, x: u32) -> Seq<u32> {
    list.insert(model::rank(list, x) as int, x)
}

/// The graph with an edge from `nb` to the new node on a level: `cut` is what
/// the list becomes if it would be over its capacity.
pub open spec fn edge_added(
    g: Seq<NodeView>,
    cap: u16,
    node_id: u32,
    nb: u32,
    level: u8,
    cut: Seq<u32>,
) -> Seq<NodeView> {
    let list = with_member(g[nb as int].lists[level as int], node_id);
    g.update(
        nb as int,
        layout::with_list(
            g[nb as int],
            level as int,
            if list.len() > cap {
                cut
            } else {
                list
            },
        ),
    )
}

/// The graph with edges from the first `n` chosen neighbors to the new node
/// on a level.
pub open spec fn level_joined(
    g: Seq<NodeView>,
    cap: u16,
    node_id: u32,
    level: u8,
    c: LevelChoice,
    n: nat,
) -> Seq<NodeView>
    decreases n,
{
    if n == 0 {
        g
    } else {
        edge_added(
            level_joined(g, cap, node_id, level, c, (n - 1) as nat),
            cap,
            node_id,
            c.neighbors[n - 1],
            level,
            c.shrunk[n - 1],
        )
    }
}

/// The graph with edges to the new node on the first `k` of the `shared`
/// levels, from the highest down.
pub open spec fn joined(
    g: Seq<NodeView>,
    q: MetaParams,
    node_id: u32,
    shared: nat,
    cs: Seq<LevelChoice>,
    k: nat,
) -> Seq<NodeView>
    decreases k,
{
    if k == 0 {
        g
    } else {
        let level = (shared - k) as u8;
        level_joined(
            joined(g, q, node_id, shared, cs, (k - 1) as nat),
            model::level_cap(q, level),
            node_id,
            level,
            cs[k - 1],
            cs[k - 1].neighbors.len(),
        )
    }
}

/// The node that an insertion makes: live, with the chosen neighbors on the
/// levels that it shares with the graph, and none above.
pub open spec fn new_node(level: u8, vector: Seq<u32>, cs: Seq<LevelChoice>) -> NodeView {
    NodeView {
        vector,
        top: level,
        live: true,
        tombstoned: false,
        lists: Seq::new(
            (level + 1) as nat,
            |l: int| model::own_list(model::chosen_lists(cs), l),
        ),
    }
}

/// The graph after an insertion with these choices, one per shared level.
pub open spec fn with_node(
    g: Seq<NodeView>,
    q: MetaParams,
    level: u8,
    vector: Seq<u32>,
    cs: Seq<LevelChoice>,
) -> Seq<NodeView> {
    joined(g, q, g.len() as u32, cs.len(), cs, cs.len()).push(new_node(level, vector, cs))
}

/// The graphs have the same nodes but for neighbor lists.
pub open spec fn same_but_lists(g: Seq<NodeView>, h: Seq<NodeView>) -> bool {
    &&& h.len() == g.len()
    &&& forall|i: int|
        0 <= i < g.len() ==> (#[trigger] h[i]) == NodeView { lists: h[i].lists, ..g[i] }
            && h[i].lists.len() == g[i].lists.len()
}

/// The first `n` chosen neighbors are nodes of the graph that have the level.
pub open spec fn joinable(g: Seq<NodeView>, level: u8, c: LevelChoice, n: nat) -> bool {
    forall|j: int|
        0 <= j < n ==> (#[trigger] c.neighbors[j]) < g.len() && level < g[c.neighbors[j]
            as int].lists.len()
}

/// The neighbors that are chosen on the first `k` of the `shared` levels, from
/// the highest down, are nodes of the graph that have the level.
pub open spec fn all_joinable(
    g: Seq<NodeView>,
    shared: nat,
    cs: Seq<LevelChoice>,
    k: nat,
) -> bool {
    forall|i: int|
        0 <= i < k ==> #[trigger] joinable(
            g,
            (shared - 1 - i) as u8,
            cs[i],
            cs[i].neighbors.len(),
        )
}

/// Edges on a level change nothing but neighbor lists.
pub proof fn lemma_level_joined_keeps(
    g: Seq<NodeView>,
    cap: u16,
    node_id: u32,
    level: u8,
    c: LevelChoice,
    n: nat,
)
    requires
        joinable(g, level, c, n),
    ensures
        same_but_lists(g, level_joined(g, cap, node_id, level, c, n)),
    decreases n,
{
    if n > 0 {
        lemma_level_joined_keeps(g, cap, node_id, level, c, (n - 1) as nat);
        let a = level_joined(g, cap, node_id, level, c, (n - 1) as nat);
        let b = level_joined(g, cap, node_id, level, c, n);
        let nb = c.neighbors[n - 1];
        assert(a[nb as int].lists.len() == g[nb as int].lists.len());
        assert forall|i: int| 0 <= i < g.len() implies (#[trigger] b[i]) == (NodeView {
            lists: b[i].lists,
            ..g[i]
        }) && b[i].lists.len() == g[i].lists.len() by {
            assert(a[i] == NodeView { lists: a[i].lists, ..g[i] });
        }
    }
}

/// What is joinable stays so when neighbor lists change.
pub proof fn lemma_joinable_kept(
    g: Seq<NodeView>,
    h: Seq<NodeView>,
    level: u8,
    c: LevelChoice,
    n: nat,
)
    requires
        same_but_lists(g, h),
    ensures
        joinable(h, level, c, n) == joinable(g, level, c, n),
{
    assert(forall|i: int| 0 <= i < g.len() ==> (#[trigger] h[i]).lists.len() == g[i].lists.len());
    if joinable(g, level, c, n) {
        assert forall|j: int| 0 <= j < n implies (#[trigger] c.neighbors[j]) < h.len() && level
            < h[c.neighbors[j] as int].lists.len() by {}
    }
}

/// Edges change nothing but neighbor lists.
pub proof fn lemma_joined_keeps(
    g: Seq<NodeView>,
    q: MetaParams,
    node_id: u32,
    shared: nat,
    cs: Seq<LevelChoice>,
    k: nat,
)
    requires
        all_joinable(g, shared, cs, k),
    ensures
        same_but_lists(g, joined(g, q, node_id, shared, cs, k)),
    decreases k,
{
    if k > 0 {
        assert(all_joinable(g, shared, cs, (k - 1) as nat));
        lemma_joined_keeps(g, q, node_id, shared, cs, (k - 1) as nat);
        let level = (shared - k) as u8;
        let a = joined(g, q, node_id, shared, cs, (k - 1) as nat);
        let c = cs[k - 1];
        assert(joinable(g, (shared - 1 - (k - 1)) as u8, c, c.neighbors.len()));
        lemma_joinable_kept(g, a, level, c, c.neighbors.len());
        lemma_level_joined_keeps(
            a,
            model::level_cap(q, level),
            node_id,
            level,
            c,
            c.neighbors.len(),
        );
        let b = joined(g, q, node_id, shared, cs, k);
        assert forall|i: int| 0 <= i < g.len() implies (#[trigger] b[i]) == (NodeView {
            lists: b[i].lists,
            ..g[i]
        }) && b[i].lists.len() == g[i].lists.len() by {
            assert(a[i] == NodeView { lists: a[i].lists, ..g[i] });
        }
    }
}

/// The node has no neighbors yet.
pub open spec fn unconnected(n: NodeView) -> bool {
    forall|l: int| 0 <= l < n.lists.len() ==> (#[trigger] n.lists[l]).len() == 0
}

/// The edge from a neighbor to the new node, in a list that becomes `cut` if
/// it would be over its capacity.
pub open spec fn edge_made(w: World, node_id: u32, nb: u32, level: u8, cut: Seq<u32>) -> (
    World,
    Result<(), HnswError>,
) {
    match model::edge_planned(w, node_id, nb, level) {
        Err(e) => (w, Err(e)),
        Ok(plan) => model::edge_written(
            w,
            plan,
            nb,
            level,
            if plan.over {
                cut
            } else {
                plan.list
            },
        ),
    }
}

/// Making an edge adds it to the graph: to the nodes before the new one,
/// which is without neighbors and stays as it is.
proof fn lemma_edge_made(
    w: World,
    old: Seq<NodeView>,
    last: NodeView,
    node_id: u32,
    nb: u32,
    level: u8,
    cut: Seq<u32>,
)
    requires
        held(w),
        node_id + 1 == w.index.hwm,
        graph_of(w) == old.push(last),
        unconnected(last),
    ensures
        edge_made(w, node_id, nb, level, cut) matches (w1, Ok(_)) ==> {
            let cap = model::level_cap(w.index.params, level);
            &&& held(w1)
            &&& graph_of(w1) == edge_added(old, cap, node_id, nb, level, cut).push(last)
            &&& w1.index == IndexView { probe: w1.index.probe, ..w.index }
            &&& forall|j: int| 0 <= j < w.index.hwm ==> #[trigger] place_of(w1, j) == place_of(w, j)
            &&& nb < old.len()
            &&& level < old[nb as int].lists.len()
            &&& lists_ok(graph_of(w), w.index.params) ==> lists_ok(graph_of(w1), w.index.params)
        },
{
    lemma_held(w);
    lemma_edge_planned(w, node_id, nb, level);
    let (w1, r) = edge_made(w, node_id, nb, level, cut);
    if r is Ok {
        let plan = model::edge_planned(w, node_id, nb, level)->Ok_0;
        let list = if plan.over {
            cut
        } else {
            plan.list
        };
        let cap = model::level_cap(w.index.params, level);
        lemma_list_written(
            w,
            plan.page_id,
            plan.slot,
            nb,
            level,
            list,
            (
                "insert: pin_mut neighbor page",
                "insert: encode SetNeighbors",
                "insert: WAL append SetNeighbors",
            ),
            ProbeMark::NeighborEdge { level, shrank: plan.over },
        );
        if nb == node_id {
            let none = last.lists[level as int];
            assert(none =~= Seq::<u32>::empty());
            assert(plan.list[0] == node_id);
            assert(list.contains(node_id));
            assert(false);
        }
        assert(graph_of(w)[nb as int] == old[nb as int]);
        let b = edge_added(old, cap, node_id, nb, level, cut);
        assert(old.push(last).update(nb as int, b[nb as int]) =~= b.push(last));
    }
}

/// Connecting one more neighbor of a level makes its edge.
pub proof fn lemma_level_step(w: World, node_id: u32, level: u8, c: LevelChoice, n: nat)
    requires
        n > 0,
    ensures
        model::level_connected(w, node_id, level, c, n) == match model::level_connected(
            w,
            node_id,
            level,
            c,
            (n - 1) as nat,
        ) {
            (w1, Err(e)) => (w1, Err::<(), HnswError>(e)),
            (w1, Ok(_)) => edge_made(w1, node_id, c.neighbors[n - 1], level, c.shrunk[n - 1]),
        },
{
    reveal(model::level_connected);
}

/// Connecting a level adds the edges to the graph. It leaves the new node as
/// it was, and every neighbor that is chosen is another node that has the
/// level.
pub proof fn lemma_level_connected(w: World, node_id: u32, level: u8, c: LevelChoice, n: nat)
    requires
        held(w),
        node_id + 1 == w.index.hwm,
        unconnected(graph_of(w).last()),
        n <= c.neighbors.len(),
    ensures
        model::level_connected(w, node_id, level, c, n) matches (w1, Ok(_)) ==> {
            let cap = model::level_cap(w.index.params, level);
            let g = graph_of(w);
            let old = g.drop_last();
            &&& held(w1)
            &&& graph_of(w1) == level_joined(old, cap, node_id, level, c, n).push(g.last())
            &&& w1.index == IndexView { probe: w1.index.probe, ..w.index }
            &&& forall|j: int| 0 <= j < w.index.hwm ==> #[trigger] place_of(w1, j) == place_of(w, j)
            &&& joinable(old, level, c, n)
            &&& lists_ok(g, w.index.params) ==> lists_ok(graph_of(w1), w.index.params)
        },
    decreases n,
{
    lemma_held(w);
    let g = graph_of(w);
    let old = g.drop_last();
    assert(old.push(g.last()) =~= g);
    if n == 0 {
        reveal(model::level_connected);
    } else if model::level_connected(w, node_id, level, c, n).1 is Ok {
        lemma_level_step(w, node_id, level, c, n);
        lemma_level_connected(w, node_id, level, c, (n - 1) as nat);
        let before = model::level_connected(w, node_id, level, c, (n - 1) as nat).0;
        let cap = model::level_cap(w.index.params, level);
        let a = level_joined(old, cap, node_id, level, c, (n - 1) as nat);
        lemma_level_joined_keeps(old, cap, node_id, level, c, (n - 1) as nat);
        let nb = c.neighbors[n - 1];
        let cut = c.shrunk[n - 1];
        lemma_edge_made(before, a, g.last(), node_id, nb, level, cut);
        let w1 = model::level_connected(w, node_id, level, c, n).0;
        assert(w1 == edge_made(before, node_id, nb, level, cut).0);
        assert forall|j: int| 0 <= j < w.index.hwm implies #[trigger] place_of(w1, j) == place_of(
            w,
            j,
        ) by {
            assert(place_of(before, j) == place_of(w, j));
        }
    }
}

/// Connecting adds the edges of every shared level to the graph.
pub proof fn lemma_connected(w: World, node_id: u32, shared: nat, cs: Seq<LevelChoice>, k: nat)
    requires
        held(w),
        node_id + 1 == w.index.hwm,
        unconnected(graph_of(w).last()),
        k <= cs.len(),
        k <= shared <= 256,
    ensures
        model::connected(w, node_id, shared, cs, k) matches (w1, Ok(_)) ==> {
            let g = graph_of(w);
            let old = g.drop_last();
            &&& held(w1)
            &&& graph_of(w1) == joined(old, w.index.params, node_id, shared, cs, k).push(g.last())
            &&& w1.index == IndexView { probe: w1.index.probe, ..w.index }
            &&& forall|j: int| 0 <= j < w.index.hwm ==> #[trigger] place_of(w1, j) == place_of(w, j)
            &&& all_joinable(old, shared, cs, k)
            &&& lists_ok(g, w.index.params) ==> lists_ok(graph_of(w1), w.index.params)
        },
    decreases k,
{
    lemma_held(w);
    let g = graph_of(w);
    let old = g.drop_last();
    assert(old.push(g.last()) =~= g);
    if k > 0 && model::connected(w, node_id, shared, cs, k).1 is Ok {
        lemma_connected(w, node_id, shared, cs, (k - 1) as nat);
        let before = model::connected(w, node_id, shared, cs, (k - 1) as nat).0;
        let level = (shared - k) as u8;
        let c = cs[k - 1];
        let a = joined(old, w.index.params, node_id, shared, cs, (k - 1) as nat);
        lemma_joined_keeps(old, w.index.params, node_id, shared, cs, (k - 1) as nat);
        assert(graph_of(before) == a.push(g.last()));
        assert(graph_of(before).drop_last() =~= a);
        lemma_joinable_kept(old, a, level, c, c.neighbors.len());
        lemma_level_connected(before, node_id, level, c, c.neighbors.len());
        let (w1, r) = model::connected(w, node_id, shared, cs, k);
        assert((w1, r) == model::level_connected(before, node_id, level, c, c.neighbors.len()));
        assert forall|j: int| 0 <= j < w.index.hwm implies #[trigger] place_of(w1, j) == place_of(
            w,
            j,
        ) by {
            assert(place_of(before, j) == place_of(w, j));
        }
    }
}

// ---------------------------------------------------------------------
// The end of an insertion.
// ---------------------------------------------------------------------

/// The node with its own lists on its first `n` levels.
pub open spec fn listed(node: NodeView, own: Seq<Seq<u32>>, n: nat) -> NodeView {
    NodeView {
        lists: Seq::new(
            node.lists.len(),
            |l: int|
                if l < n {
                    model::own_list(own, l)
                } else {
                    node.lists[l]
                },
        ),
        ..node
    }
}

/// Writing one of the new node's lists gives it that list.
proof fn lemma_own_list_written(
    w: World,
    pending: PendingInsert,
    old: Seq<NodeView>,
    last: NodeView,
    own: Seq<Seq<u32>>,
    n: nat,
)
    requires
        held(w),
        pending.node_id.0 + 1 == w.index.hwm,
        graph_of(w) == old.push(listed(last, own, (n - 1) as nat)),
        last.top == pending.level,
        last.lists.len() == last.top + 1,
        (pending.page_id, pending.slot) == place_of(w, pending.node_id.0 as int),
        1 <= n <= pending.level + 1,
    ensures
        model::list_written(
            w,
            pending.page_id,
            pending.slot,
            pending.node_id.0,
            (n - 1) as u8,
            model::own_list(own, n - 1),
            (
                "insert: pin_mut own node page",
                "insert: encode own SetNeighbors",
                "insert: WAL append own SetNeighbors",
            ),
            ProbeMark::OwnList { level: (n - 1) as u8 },
        ) matches (w1, Ok(_)) ==> {
            &&& held(w1)
            &&& graph_of(w1) == old.push(listed(last, own, n))
            &&& w1.index == IndexView { probe: w1.index.probe, ..w.index }
            &&& forall|j: int| 0 <= j < w.index.hwm ==> #[trigger] place_of(w1, j) == place_of(w, j)
            &&& lists_ok(graph_of(w), w.index.params) ==> lists_ok(graph_of(w1), w.index.params)
        },
{
    lemma_held(w);
    let id = pending.node_id.0;
    let list = model::own_list(own, n - 1);
    let a = listed(last, own, (n - 1) as nat);
    let b = listed(last, own, n);
    lemma_list_written(
        w,
        pending.page_id,
        pending.slot,
        id,
        (n - 1) as u8,
        list,
        (
            "insert: pin_mut own node page",
            "insert: encode own SetNeighbors",
            "insert: WAL append own SetNeighbors",
        ),
        ProbeMark::OwnList { level: (n - 1) as u8 },
    );
    let c = layout::with_list(a, n - 1, list);
    assert(c.lists =~= b.lists);
    assert(old.push(a).update(id as int, c) =~= old.push(b));
}

/// The sixth step gives the new node its lists.
pub proof fn lemma_own_lists_written(w: World, pending: PendingInsert, own: Seq<Seq<u32>>, n: nat)
    requires
        held(w),
        pending.node_id.0 + 1 == w.index.hwm,
        unconnected(graph_of(w).last()),
        graph_of(w).last().top == pending.level,
        (pending.page_id, pending.slot) == place_of(w, pending.node_id.0 as int),
        n <= pending.level + 1,
    ensures
        model::own_lists_written(w, pending, own, n) matches (w1, Ok(_)) ==> {
            let g = graph_of(w);
            &&& held(w1)
            &&& graph_of(w1) == g.drop_last().push(listed(g.last(), own, n))
            &&& w1.index == IndexView { probe: w1.index.probe, ..w.index }
            &&& forall|j: int| 0 <= j < w.index.hwm ==> #[trigger] place_of(w1, j) == place_of(w, j)
            &&& lists_ok(g, w.index.params) ==> lists_ok(graph_of(w1), w.index.params)
        },
    decreases n,
{
    lemma_held(w);
    let g = graph_of(w);
    let id = pending.node_id.0;
    lemma_node_there(w, id as int);
    if n == 0 {
        assert(listed(g.last(), own, 0).lists =~= g.last().lists);
        assert(g.drop_last().push(g.last()) =~= g);
    } else if model::own_lists_written(w, pending, own, n).1 is Ok {
        lemma_own_lists_written(w, pending, own, (n - 1) as nat);
        let before = model::own_lists_written(w, pending, own, (n - 1) as nat).0;
        let w1 = model::own_lists_written(w, pending, own, n).0;
        let list = model::own_list(own, n - 1);
        let a = listed(g.last(), own, (n - 1) as nat);
        let b = listed(g.last(), own, n);
        if list.len() == 0 {
            assert(g.last().lists[n - 1].len() == 0);
            assert(list =~= g.last().lists[n - 1]);
            assert(a.lists =~= b.lists);
        } else {
            assert(place_of(before, id as int) == place_of(w, id as int));
            lemma_own_list_written(before, pending, g.drop_last(), g.last(), own, n);
            assert forall|j: int| 0 <= j < w.index.hwm implies #[trigger] place_of(w1, j)
                == place_of(w, j) by {
                assert(place_of(before, j) == place_of(w, j));
            }
        }
    }
}

/// Another content of the meta page changes the parameters and nothing else.
pub proof fn lemma_meta_replaced(w: World, w1: World, q: Seq<u8>)
    requires
        held(w),
        q.len() == PAGE_SIZE,
        w1.disk.pages == w.disk.pages.update(w.index.meta_page_id.0 as int, q),
        w1.index == (IndexView {
            probe: w1.index.probe,
            params: w1.index.params,
            ..w.index
        }),
        model::index_ok(w1.index),
        model::geometry(w1.index.params) == model::geometry(w.index.params),
        meta::meta_of(q) == Ok::<MetaParams, HnswError>(w1.index.params),
    ensures
        held(w1),
        graph_of(w1) == graph_of(w),
        forall|j: int| 0 <= j < w.index.hwm ==> #[trigger] place_of(w1, j) == place_of(w, j),
{
    reveal(held);
    reveal(graph_of);
    let ix = w.index;
    let pages = w.disk.pages;
    let geo = model::geometry(ix.params);
    assert(!layout::node_page_ok(pages[ix.meta_page_id.0 as int]));
    soundness::lemma_entries_kept(pages, ix.dir_pages, geo, ix.hwm, ix.meta_page_id, q);
    assert forall|j: int| 0 <= j < ix.hwm implies #[trigger] place_of(w1, j) == place_of(w, j) by {
        assert(soundness::place(w1.disk.pages, ix.dir_pages, j) == soundness::place(
            pages,
            ix.dir_pages,
            j,
        ));
    }
}

/// Replacing the entry point of a meta page, whatever its log position then,
/// gives it the parameters with that entry point.
pub proof fn lemma_meta_page(p: Seq<u8>, q: MetaParams, entry_point: u32, max_level: u8, lsn: Lsn)
    requires
        p.len() == PAGE_SIZE,
        meta::meta_of(p) == Ok::<MetaParams, HnswError>(q),
        meta::valid(MetaParams { entry_point, max_level, ..q }),
    ensures
        ({
            let r = storage::with_lsn(meta::meta_applied(p, entry_point, max_level), lsn);
            &&& r.len() == PAGE_SIZE
            &&& meta::meta_of(r) == Ok::<MetaParams, HnswError>(
                MetaParams { entry_point, max_level, ..q },
            )
            &&& storage::pd_lsn(r) == lsn.0
        }),
{
    let a = meta::meta_applied(p, entry_point, max_level);
    let r = storage::with_lsn(a, lsn);
    meta::lemma_meta_applied(p, entry_point, max_level);
    layout::lemma_with_lsn(a, lsn);
    assert(forall|i: int| 8 <= i < PAGE_SIZE ==> r[i] == a[i]);
    assert(storage::pd_flags(r) == storage::pd_flags(a));
    assert(meta::fields(r, q.metric, q.selection) == meta::fields(a, q.metric, q.selection));
    assert(bytes::le16(r, 54) == bytes::le16(a, 54) && bytes::le16(r, 72) == bytes::le16(a, 72));
    assert(r[37] == a[37] && r[38] == a[38] && r[39] == a[39]);
}

/// The new node as entry point.
proof fn lemma_raised_is_valid(ix: IndexView, pending: PendingInsert)
    requires
        model::index_ok(ix),
        model::pending_ok(ix, pending),
    ensures
        model::index_ok(
            IndexView { params: model::with_entry_point(ix.params, pending), ..ix },
        ),
{
    rng::lemma_top_level_bound(ix.params.m as nat);
}

/// The seventh step changes the entry point, where it does, and nothing else.
pub proof fn lemma_entry_point_raised(w: World, pending: PendingInsert)
    requires
        held(w),
        model::pending_ok(w.index, pending),
    ensures
        model::entry_point_raised(w, pending) matches (w1, Ok(_)) ==> {
            &&& held(w1)
            &&& graph_of(w1) == graph_of(w)
            &&& w1.index == IndexView {
                probe: w1.index.probe,
                params: if model::empty_graph(w.index) || pending.level
                    > w.index.params.max_level {
                    model::with_entry_point(w.index.params, pending)
                } else {
                    w.index.params
                },
                ..w.index
            }
            &&& forall|j: int| 0 <= j < w.index.hwm ==> #[trigger] place_of(w1, j) == place_of(w, j)
        },
{
    reveal(model::entry_point_raised);
    let ix = w.index;
    let (w1, r) = model::entry_point_raised(w, pending);
    if r is Ok && (model::empty_graph(ix) || pending.level > ix.params.max_level) {
        let p = w.disk.pages[ix.meta_page_id.0 as int];
        let lsn = storage::next_lsn(w.disk.log);
        let q = storage::with_lsn(
            meta::meta_applied(p, pending.node_id.0, pending.level),
            lsn,
        );
        assert(model::index_ok(ix) && p.len() == PAGE_SIZE && meta::meta_of(p) == Ok::<
            MetaParams,
            HnswError,
        >(ix.params)) by {
            reveal(held);
        }
        lemma_raised_is_valid(ix, pending);
        lemma_meta_page(p, ix.params, pending.node_id.0, pending.level, lsn);
        assert(w1.disk.pages == w.disk.pages.update(ix.meta_page_id.0 as int, q));
        lemma_meta_replaced(w, w1, q);
    }
}

/// The last step makes the new node live.
pub proof fn lemma_entry_published(w: World, pending: PendingInsert)
    requires
        held(w),
        pending.node_id.0 < w.index.hwm,
        (pending.page_id, pending.slot) == place_of(w, pending.node_id.0 as int),
    ensures
        model::entry_published(w, pending) matches (w1, Ok(_)) ==> {
            let i = pending.node_id.0 as int;
            &&& held(w1)
            &&& graph_of(w1) == graph_of(w).update(i, layout::made_live(graph_of(w)[i]))
            &&& w1.index == IndexView { probe: w1.index.probe, ..w.index }
            &&& forall|j: int| 0 <= j < w.index.hwm ==> #[trigger] place_of(w1, j) == place_of(w, j)
        },
{
    reveal(model::entry_published);
    let ix = w.index;
    let i = pending.node_id.0 as int;
    let geo = model::geometry(ix.params);
    let (w1, r) = model::entry_published(w, pending);
    lemma_node_there(w, i);
    if r is Ok {
        let p = w.disk.pages[pending.page_id.0 as int];
        let lsn = storage::next_lsn(w.disk.log);
        let q = storage::with_lsn(apply::live_published(p, pending.slot, geo.dim)->Ok_0, lsn);
        layout::lemma_live_swapped(p, pending.slot, geo, lsn);
        assert(w1.disk.pages == w.disk.pages.update(pending.page_id.0 as int, q));
        lemma_entry_swapped(w, w1, i, q, layout::made_live(graph_of(w)[i]));
    }
}

/// The end of an insertion makes the fresh node at the end of the graph the
/// new node.
proof fn lemma_finished(w: World, pending: PendingInsert, vector: Seq<u32>, cs: Seq<LevelChoice>)
    requires
        held(w),
        model::pending_ok(w.index, pending),
        pending.node_id.0 + 1 == w.index.hwm,
        graph_of(w).last() == layout::fresh_node(pending.level, vector),
        (pending.page_id, pending.slot) == place_of(w, pending.node_id.0 as int),
        cs.len() == model::shared_levels(w.index, pending),
    ensures
        model::finished(w, pending, model::chosen_lists(cs)) matches (w1, Ok(id)) ==> {
            &&& held(w1)
            &&& id == pending.node_id
            &&& graph_of(w1) == graph_of(w).drop_last().push(new_node(pending.level, vector, cs))
            &&& w1.index == IndexView {
                probe: w1.index.probe,
                params: if model::empty_graph(w.index) || pending.level
                    > w.index.params.max_level {
                    model::with_entry_point(w.index.params, pending)
                } else {
                    w.index.params
                },
                ..w.index
            }
            &&& place_of(w1, pending.node_id.0 as int) == place_of(w, pending.node_id.0 as int)
            &&& w1.disk.durable == w1.disk.log.len() as u64
            &&& lists_ok(graph_of(w), w.index.params) ==> lists_ok(graph_of(w1), w.index.params)
        },
{
    reveal(model::finished);
    lemma_held(w);
    let own = model::chosen_lists(cs);
    let g = graph_of(w);
    let n = model::shared_levels(w.index, pending);
    if model::finished(w, pending, own).1 is Ok {
        lemma_own_lists_written(w, pending, own, n);
        let w1 = model::own_lists_written(w, pending, own, n).0;
        lemma_entry_point_raised(w1, pending);
        let w2 = model::entry_point_raised(w1, pending).0;
        assert(place_of(w1, pending.node_id.0 as int) == place_of(w, pending.node_id.0 as int));
        assert(place_of(w2, pending.node_id.0 as int) == place_of(w, pending.node_id.0 as int));
        lemma_entry_published(w2, pending);
        let w3 = model::entry_published(w2, pending).0;
        let w4 = model::finished(w, pending, own).0;
        lemma_held_by_pages(w3, w4);
        let a = listed(g.last(), own, n);
        let b = new_node(pending.level, vector, cs);
        assert(layout::made_live(a).lists =~= b.lists);
        assert(layout::made_live(a) == b);
        let i = pending.node_id.0 as int;
        assert(g.drop_last().push(a).update(i, layout::made_live(a)) =~= g.drop_last().push(b));
        let q = w.index.params;
        if lists_ok(g, q) {
            let h = g.drop_last().push(a);
            let k = g.drop_last().push(b);
            assert(lists_ok(h, q));
            assert forall|x: int, l: int| 0 <= x < k.len() && 0 <= l < k[x].lists.len() implies list_ok(
                q,
                x,
                l,
                #[trigger] k[x].lists[l],
            ) by {
                assert(k[x].lists[l] == h[x].lists[l]);
            }
        }
    }
}

/// An insertion adds its node to the graph and does nothing else to it but
/// what the choices say: the new node comes at the end, live, with its
/// vector, the level that was drawn and its chosen neighbors; the chosen
/// neighbors' lists name it; every other list, and every vector, level and
/// mark, stays. The node becomes the entry point exactly if it stands above
/// the old one or is the first. The level draw moves on by one draw.
pub proof fn lemma_insertion_adds_the_node(w: World, vector: Seq<u32>, cs: Seq<LevelChoice>)
    requires
        held(w),
        model::decided(w, vector, cs),
    ensures
        model::inserted(w, vector, cs) matches (w1, Ok(id)) ==> {
            let (level, rng) = rng::level_draw(w.index.rng, w.index.params.m);
            let q = w.index.params;
            &&& held(w1)
            &&& id.0 == w.index.hwm
            &&& graph_of(w1) == with_node(graph_of(w), q, level as u8, vector, cs)
            &&& all_joinable(graph_of(w), cs.len(), cs, cs.len())
            &&& w1.index.hwm == w.index.hwm + 1
            &&& w1.index.rng == rng
            &&& w1.index.meta_page_id == w.index.meta_page_id
            &&& w1.index.params == if model::empty_graph(w.index) || level > q.max_level {
                MetaParams { entry_point: id.0, max_level: level as u8, ..q }
            } else {
                q
            }
            &&& w1.index.current_node_page == Some(place_of(w1, id.0 as int).0)
            &&& w1.disk.durable == w1.disk.log.len() as u64
            &&& lists_ok(graph_of(w), q) ==> lists_ok(graph_of(w1), q)
        },
{
    if let (w3, Ok(id)) = model::inserted(w, vector, cs) {
        lemma_held(w);
        lemma_begun_adds_a_fresh_node(w, vector);
        assert(model::index_ok(w.index)) by {
            reveal(held);
        }
        model::lemma_begun_keeps(w, vector);
        let w1 = model::begun(w, vector).0;
        let pending = model::begun(w, vector).1->Ok_0;
        let shared = model::shared_levels(w1.index, pending);
        let fresh = layout::fresh_node(pending.level, vector);
        assert(graph_of(w1).drop_last() =~= graph_of(w));
        assert(graph_of(w1).last() == fresh);
        lemma_connected(w1, pending.node_id.0, shared, cs, cs.len());
        let w2 = model::connected(w1, pending.node_id.0, shared, cs, cs.len()).0;
        lemma_held(w2);
        let a = joined(graph_of(w), w.index.params, pending.node_id.0, shared, cs, cs.len());
        assert(graph_of(w2) == a.push(fresh));
        assert(graph_of(w2).drop_last() =~= a);
        assert(place_of(w2, pending.node_id.0 as int) == place_of(w1, pending.node_id.0 as int));
        lemma_finished(w2, pending, vector, cs);
        let q = w.index.params;
        let g = graph_of(w1);
        if lists_ok(graph_of(w), q) {
            assert forall|x: int, l: int| 0 <= x < g.len() && 0 <= l < g[x].lists.len() implies list_ok(
                q,
                x,
                l,
                #[trigger] g[x].lists[l],
            ) by {
                if x < w.index.hwm {
                    assert(g[x] == graph_of(w)[x]);
                }
            }
        }
    }
}

/// A vector that cannot be inserted changes nothing: no page, no record, no
/// level drawn, no mark.
pub proof fn lemma_refused_vector_changes_nothing(
    w: World,
    vector: Seq<u32>,
    cs: Seq<LevelChoice>,
)
    ensures
        model::insert_fault(w.index, vector) matches Some(e) ==> model::inserted(w, vector, cs) == (
            w,
            Err::<NodeId, HnswError>(e),
        ),
{
    reveal(model::begun);
}

/// Every other attempt draws one level, whatever comes of it. The handle
/// counts the new node once the fourth step is passed, also where a later
/// step fails.
pub proof fn lemma_attempt_draws_one_level(w: World, vector: Seq<u32>, cs: Seq<LevelChoice>)
    requires
        model::index_ok(w.index),
        model::insert_fault(w.index, vector) is None,
    ensures
        ({
            let (w1, r) = model::inserted(w, vector, cs);
            &&& w1.index.rng == rng::level_draw(w.index.rng, w.index.params.m).1
            &&& w1.index.hwm == if model::begun(w, vector).1 is Ok {
                w.index.hwm + 1
            } else {
                w.index.hwm as int
            }
            &&& r is Ok ==> model::begun(w, vector).1 is Ok
        }),
{
    model::lemma_begun_keeps(w, vector);
    lemma_begun_draws(w, vector);
    if let (w1, Ok(pending)) = model::begun(w, vector) {
        let shared = model::shared_levels(w1.index, pending);
        let id = pending.node_id.0;
        model::lemma_connected_keeps(w1, id, shared, cs, cs.len());
        let w2 = model::connected(w1, id, shared, cs, cs.len()).0;
        model::lemma_finished_keeps(w2, pending, model::chosen_lists(cs));
    }
}

/// The steps up to the fourth draw one level.
proof fn lemma_begun_draws(w: World, vector: Seq<u32>)
    requires
        model::index_ok(w.index),
        model::insert_fault(w.index, vector) is None,
    ensures
        model::begun(w, vector).0.index.rng == rng::level_draw(w.index.rng, w.index.params.m).1,
{
    reveal(model::begun);
    let node_id = w.index.hwm as u32;
    let (w1, level) = model::level_drawn(w);
    let len = model::geometry(w.index.params).size(level) as usize;
    model::lemma_node_page_ready_keeps(w1, len);
    let (w2, r2) = model::node_page_ready(w1, len);
    if let Ok(id) = r2 {
        model::lemma_dir_tail_ready_keeps(w2);
        let (w3, r3) = model::dir_tail_ready(w2);
        if let Ok(tail) = r3 {
            model::lemma_entry_created_keeps(w3, id, node_id, level, vector);
            let (w4, r4) = model::entry_created(w3, id, node_id, level, vector);
            if let Ok(slot) = r4 {
                model::lemma_place_published_keeps(w4, tail, node_id, id, slot);
            }
        }
    }
}

} // verus!
