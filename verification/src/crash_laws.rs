//! What an insertion that stops leaves behind.
//!
//! Wherever an insertion stops between two records, the pages hold an index:
//! every node that was there is there, with its vector, its level and its
//! marks, and at most the new node is there besides. Replaying the log over
//! the pages from before gives these very pages.

use vstd::prelude::*;

use crate::apply;
use crate::audit;
use crate::audit_laws;
use crate::dir;
use crate::error::HnswError;
use crate::fault::IndexFault;
use crate::fault::Reason;
use crate::graph;
use crate::graph::Metric;
use crate::graph::NeighborSelection;
use crate::graph_laws;
use crate::index_laws;
use crate::layout;
use crate::layout::NodeView;
use crate::meta;
use crate::meta::ExpectedParams;
use crate::meta::MetaParams;
use crate::model;
use crate::model::Disk;
use crate::model::IndexView;
use crate::model::LevelChoice;
use crate::model::PendingInsert;
use crate::model::ProbeMark;
use crate::model::ProbeView;
use crate::model::World;
use crate::node;
use crate::open_laws;
use crate::page;
use crate::page::PAGE_TYPE_META;
use crate::page::PAGE_TYPE_NODE;
use crate::params;
use crate::params::HnswParams;
use crate::recovery_laws;
use crate::redo;
use crate::redo::StorageError;
use crate::rng;
use crate::soundness;
use crate::storage;
use crate::storage::PageId;
use crate::storage::Payload;
use crate::storage::PAGE_SIZE;

verus! {

/// The error of a stop between two records.
pub open spec fn is_stop(e: HnswError) -> bool {
    e matches HnswError::InvalidOperation(Reason::Index(IndexFault::CrashProbe { .. }))
}

/// The world with a probe that does not stop anything.
pub open spec fn unprobed(w: World) -> World {
    World {
        index: IndexView {
            probe: ProbeView { marks: Seq::empty(), crash_after: None, logging: false },
            ..w.index
        },
        ..w
    }
}

/// Every node of `g` is in `h`, unchanged but for its neighbors, and at most
/// one more node.
pub open spec fn keeps(g: Seq<NodeView>, h: Seq<NodeView>) -> bool {
    &&& g.len() <= h.len() <= g.len() + 1
    &&& forall|i: int| 0 <= i < g.len() ==> (#[trigger] h[i]) == NodeView { lists: h[i].lists, ..g[i] }
}

/// The entry point is one of a graph in order, or there is none.
pub open spec fn entry_point_or_none(g: Seq<NodeView>, q: MetaParams) -> bool {
    ||| graph_laws::entry_point_ok(g, q)
    ||| q.entry_point == params::INVALID_NODE && q.max_level == 0
}

/// The handle and the pages agree on a graph in order that may lack its entry
/// point, and no page shows a record that is yet to come.
#[verifier::opaque]
pub open spec fn usable(w: World) -> bool {
    let g = index_laws::graph_of(w);
    &&& index_laws::held(w)
    &&& recovery_laws::within_log(w.disk)
    &&& graph_laws::sound(g, w.index.params)
    &&& entry_point_or_none(g, w.index.params)
}

/// The index `x` stands for `w`: it is usable, and it keeps the nodes and the
/// parameters of `w`.
pub open spec fn stands(w: World, x: World) -> bool {
    &&& usable(x)
    &&& keeps(index_laws::graph_of(w), index_laws::graph_of(x))
    &&& x.index.meta_page_id == w.index.meta_page_id
    &&& x.index.params == MetaParams {
        entry_point: x.index.params.entry_point,
        max_level: x.index.params.max_level,
        ..w.index.params
    }
}

/// The index `x` goes on from `w`: it stands for it, and its further log
/// records, replayed over the pages of `w`, give its pages.
#[verifier::opaque]
pub open spec fn goes_on(w: World, x: World) -> bool {
    &&& stands(w, x)
    &&& recovery_laws::replays(w.disk, x.disk)
}

/// The pages of `w1` are those of an index that stands for `w`.
pub open spec fn left(w: World, x: World, w1: World) -> bool {
    &&& stands(w, x)
    &&& x.disk == w1.disk
}

/// The pages and the log of `w1` are those of an index that goes on from `w`.
pub open spec fn residue(w: World, x: World, w1: World) -> bool {
    &&& goes_on(w, x)
    &&& x.disk == w1.disk
}

/// A step that succeeds leaves an index that goes on from `w`. One that stops
/// leaves the pages and the log of such an index, and one that fails leaves
/// the pages of an index that stands for `w`.
pub open spec fn safe<T>(w: World, out: (World, Result<T, HnswError>)) -> bool {
    match out.1 {
        Ok(_) => goes_on(w, out.0),
        Err(e) => {
            &&& exists|x: World| #[trigger] left(w, x, out.0)
            &&& is_stop(e) ==> exists|x: World| #[trigger] residue(w, x, out.0)
        },
    }
}

/// An index with the pages and the log of `w1`, and its handle.
proof fn lemma_residue(w: World, x: World, w1: World)
    requires
        goes_on(w, x),
        x.disk.pages == w1.disk.pages,
        x.disk.log == w1.disk.log,
    ensures
        exists|y: World| #[trigger] residue(w, y, w1),
        exists|y: World| #[trigger] left(w, y, w1),
{
    reveal(goes_on);
    reveal(usable);
    let y = World { disk: w1.disk, ..x };
    index_laws::lemma_held_by_pages(x, y);
    assert(residue(w, y, w1));
    assert(left(w, y, w1));
}

/// A step that changes no page leaves the pages of the index before.
proof fn lemma_pages_left(w: World, y: World, w1: World)
    requires
        goes_on(w, y),
        w1.disk.pages == y.disk.pages,
        y.disk.log.len() <= w1.disk.log.len(),
    ensures
        exists|x: World| #[trigger] left(w, x, w1),
{
    reveal(goes_on);
    reveal(usable);
    let x = World { disk: w1.disk, ..y };
    index_laws::lemma_held_by_pages(y, x);
    assert(left(w, x, w1));
}

/// A step that adds one page leaves the pages of an index.
proof fn lemma_page_left(w: World, y: World, w1: World, q: Seq<u8>)
    requires
        goes_on(w, y),
        w1.disk.pages == y.disk.pages.push(q),
        q.len() == PAGE_SIZE,
        storage::pd_lsn(q) <= 3 * w1.disk.log.len(),
        y.disk.log.len() <= w1.disk.log.len(),
    ensures
        exists|x: World| #[trigger] left(w, x, w1),
{
    reveal(goes_on);
    reveal(usable);
    let x = World { disk: w1.disk, ..y };
    index_laws::lemma_page_pushed(y, x, q);
    assert(left(w, x, w1));
}

// ---------------------------------------------------------------------
// Steps that leave the graph as it is.
// ---------------------------------------------------------------------

/// A world with the same graph and parameters goes on from `w` too.
proof fn lemma_same_graph(w: World, y: World, x: World)
    requires
        goes_on(w, y),
        index_laws::held(x),
        recovery_laws::within_log(x.disk),
        recovery_laws::replays(y.disk, x.disk),
        index_laws::graph_of(x) == index_laws::graph_of(y),
        x.index.params == y.index.params,
        x.index.meta_page_id == y.index.meta_page_id,
    ensures
        goes_on(w, x),
{
    reveal(goes_on);
    reveal(usable);
    recovery_laws::lemma_replays_in_turn(w.disk, y.disk, x.disk);
}

/// A world goes on from itself.
proof fn lemma_goes_on(w: World)
    requires
        usable(w),
    ensures
        goes_on(w, w),
{
    reveal(goes_on);
    recovery_laws::lemma_replays_nothing(w.disk);
}

/// The probe has no part in an index.
proof fn lemma_unprobed(w: World, y: World)
    requires
        goes_on(w, y),
    ensures
        goes_on(w, unprobed(y)),
        index_laws::held(unprobed(y)),
        index_laws::held(y),
        recovery_laws::within_log(y.disk),
        index_laws::graph_of(unprobed(y)) == index_laws::graph_of(y),
        forall|j: int| #[trigger]
            index_laws::place_of(unprobed(y), j) == index_laws::place_of(y, j),
{
    reveal(goes_on);
    reveal(usable);
    index_laws::lemma_held_by_pages(y, unprobed(y));
}

/// The first step is safe.
proof fn lemma_node_page_ready_safe(w: World, y: World, len: usize)
    requires
        goes_on(w, y),
    ensures
        safe(w, model::node_page_ready(y, len)),
{
    let (w1, r) = model::node_page_ready(y, len);
    lemma_unprobed(w, y);
    if r is Ok {
        index_laws::lemma_node_page_ready(y, len);
        recovery_laws::lemma_node_page_ready_replays(y, len);
        lemma_same_graph(w, y, w1);
    } else if is_stop(r->Err_0) {
        let z = unprobed(y);
        let (x, s) = model::node_page_ready(z, len);
        assert(s is Ok && x.disk.pages == w1.disk.pages && x.disk.log == w1.disk.log) by {
            reveal(model::node_page_ready);
        }
        index_laws::lemma_node_page_ready(z, len);
        recovery_laws::lemma_node_page_ready_replays(z, len);
        lemma_same_graph(w, z, x);
        lemma_residue(w, x, w1);
    } else {
        let image = page::blank_page(PAGE_TYPE_NODE);
        page::lemma_blank_page(PAGE_TYPE_NODE);
        assert(w1.disk.log == y.disk.log && (w1.disk.pages == y.disk.pages || w1.disk.pages
            == y.disk.pages.push(image))) by {
            reveal(model::node_page_ready);
        }
        if w1.disk.pages == y.disk.pages {
            lemma_pages_left(w, y, w1);
        } else {
            lemma_page_left(w, y, w1, image);
        }
    }
}

/// The second step is safe.
proof fn lemma_dir_tail_ready_safe(w: World, y: World)
    requires
        goes_on(w, y),
    ensures
        safe(w, model::dir_tail_ready(y)),
{
    let (w1, r) = model::dir_tail_ready(y);
    lemma_unprobed(w, y);
    if r is Ok {
        index_laws::lemma_dir_tail_ready(y);
        recovery_laws::lemma_dir_tail_ready_replays(y);
        lemma_same_graph(w, y, w1);
    } else if is_stop(r->Err_0) {
        let z = unprobed(y);
        let image = page::blank_dir_page(y.index.dir_pages.len() as u64);
        let context = "alloc_dir_page: allocate";
        let (disk, a) = model::allocated(y.disk, image, context);
        let y1 = World { disk, ..y };
        if model::marked(y1, ProbeMark::DirPageInit).1 is Err {
            let x = World { disk, ..z };
            assert(a is Ok && x.disk.pages == w1.disk.pages && x.disk.log == w1.disk.log) by {
                reveal(model::dir_tail_ready);
            }
            page::lemma_blank_dir_page(y.index.dir_pages.len() as u64);
            index_laws::lemma_page_allocated(z, image, context);
            recovery_laws::lemma_allocation_replays(z.disk, image, context);
            lemma_same_graph(w, z, x);
            lemma_residue(w, x, w1);
        } else {
            let (x, s) = model::dir_tail_ready(z);
            assert(s is Ok && x.disk.pages == w1.disk.pages && x.disk.log == w1.disk.log) by {
                reveal(model::dir_tail_ready);
            }
            index_laws::lemma_dir_tail_ready(z);
            recovery_laws::lemma_dir_tail_ready_replays(z);
            lemma_same_graph(w, z, x);
            lemma_residue(w, x, w1);
        }
    } else {
        let image = page::blank_dir_page(y.index.dir_pages.len() as u64);
        let context = "alloc_dir_page: allocate";
        let (disk, a) = model::allocated(y.disk, image, context);
        let lsn = storage::next_lsn(y.disk.log);
        page::lemma_blank_dir_page(y.index.dir_pages.len() as u64);
        layout::lemma_with_lsn(image, lsn);
        assert(w1.disk.pages == y.disk.pages && w1.disk.log == y.disk.log || w1.disk.pages
            == disk.pages && w1.disk.log == disk.log) by {
            reveal(model::dir_tail_ready);
        }
        if w1.disk.pages == y.disk.pages {
            lemma_pages_left(w, y, w1);
        } else if a is Ok {
            lemma_page_left(w, y, w1, storage::with_lsn(image, lsn));
        } else {
            lemma_page_left(w, y, w1, image);
        }
    }
}

/// The third step is safe.
proof fn lemma_entry_created_safe(
    w: World,
    y: World,
    id: PageId,
    node_id: u32,
    level: u8,
    vector: Seq<u32>,
)
    requires
        goes_on(w, y),
        y.index.current_node_page == Some(id),
        level <= rng::top_level(y.index.params.m as nat),
        vector.len() == y.index.params.dim,
        graph::vector_check(y.index.params.metric, vector) is Ok,
    ensures
        safe(w, model::entry_created(y, id, node_id, level, vector)),
{
    let (w1, r) = model::entry_created(y, id, node_id, level, vector);
    lemma_unprobed(w, y);
    if r is Ok {
        index_laws::lemma_entry_created(y, id, node_id, level, vector);
        recovery_laws::lemma_entry_created_replays(y, id, node_id, level, vector);
        lemma_same_graph(w, y, w1);
    } else if is_stop(r->Err_0) {
        let z = unprobed(y);
        let (x, s) = model::entry_created(z, id, node_id, level, vector);
        assert(s is Ok && x.disk.pages == w1.disk.pages && x.disk.log == w1.disk.log) by {
            reveal(model::entry_created);
        }
        index_laws::lemma_entry_created(z, id, node_id, level, vector);
        recovery_laws::lemma_entry_created_replays(z, id, node_id, level, vector);
        lemma_same_graph(w, z, x);
        lemma_residue(w, x, w1);
    } else {
        assert(w1.disk.pages == y.disk.pages && y.disk.log.len() <= w1.disk.log.len()) by {
            reveal(model::entry_created);
        }
        lemma_pages_left(w, y, w1);
    }
}

// ---------------------------------------------------------------------
// Steps that change the graph.
// ---------------------------------------------------------------------

/// A world whose graph is in order goes on from `w`, if the world before did.
proof fn lemma_other_graph(w: World, y: World, x: World)
    requires
        goes_on(w, y),
        index_laws::held(x),
        recovery_laws::within_log(x.disk),
        recovery_laws::replays(y.disk, x.disk),
        keeps(index_laws::graph_of(w), index_laws::graph_of(x)),
        graph_laws::sound(index_laws::graph_of(x), x.index.params),
        entry_point_or_none(index_laws::graph_of(x), x.index.params),
        x.index.params == (MetaParams {
            entry_point: x.index.params.entry_point,
            max_level: x.index.params.max_level,
            ..y.index.params
        }),
        x.index.meta_page_id == y.index.meta_page_id,
    ensures
        goes_on(w, x),
{
    reveal(goes_on);
    reveal(usable);
    recovery_laws::lemma_replays_in_turn(w.disk, y.disk, x.disk);
}

/// A fresh node at the end leaves a graph in order.
proof fn lemma_fresh_node_sound(g: Seq<NodeView>, q: MetaParams, level: u8, vector: Seq<u32>)
    requires
        graph_laws::sound(g, q),
        entry_point_or_none(g, q),
        g.len() < u32::MAX,
        level <= rng::top_level(q.m as nat),
        vector.len() == q.dim,
        graph::vector_check(q.metric, vector) is Ok,
    ensures
        graph_laws::sound(g.push(layout::fresh_node(level, vector)), q),
        entry_point_or_none(g.push(layout::fresh_node(level, vector)), q),
{
    let n = layout::fresh_node(level, vector);
    let h = g.push(n);
    let ts = graph_laws::tops(h);
    assert(graph_laws::node_ok(q, n));
    assert forall|i: int, l: int| 0 <= i < h.len() && 0 <= l < h[i].lists.len() implies
        index_laws::list_ok(q, i, l, #[trigger] h[i].lists[l]) && graph_laws::targets_ok(
        h[i].lists[l],
        l,
        ts,
    ) by {
        if i < g.len() {
            assert(index_laws::list_ok(q, i, l, g[i].lists[l]));
            assert(graph_laws::targets_ok(g[i].lists[l], l, graph_laws::tops(g)));
            assert forall|x: u32| #[trigger] g[i].lists[l].contains(x) implies x < ts.len() && l
                <= ts[x as int] by {
                assert(ts[x as int] == graph_laws::tops(g)[x as int]);
            }
        } else {
            assert(h[i].lists[l] =~= Seq::<u32>::empty());
        }
    }
}

/// The fourth step is safe.
proof fn lemma_place_published_safe(
    w: World,
    y: World,
    id: PageId,
    slot: u16,
    level: u8,
    vector: Seq<u32>,
)
    requires
        goes_on(w, y),
        index_laws::graph_of(y).len() == index_laws::graph_of(w).len() < u32::MAX,
        y.index.current_node_page == Some(id),
        level <= rng::top_level(y.index.params.m as nat),
        level <= 63,
        vector.len() == y.index.params.dim,
        graph::vector_check(y.index.params.metric, vector) is Ok,
        layout::slot_bytes(y.disk.pages[id.0 as int], slot) == Some(
            apply::fresh_entry(level, vector, model::geometry(y.index.params).size(level)),
        ),
        forall|i: int| 0 <= i < y.index.hwm ==> #[trigger] index_laws::place_of(y, i) != (id, slot),
    ensures
        safe(
            w,
            model::place_published(y, y.index.dir_pages.last(), y.index.hwm as u32, id, slot),
        ),
{
    let tail = y.index.dir_pages.last();
    let node_id = y.index.hwm as u32;
    let (w1, r) = model::place_published(y, tail, node_id, id, slot);
    let geo = model::geometry(y.index.params);
    let e = apply::fresh_entry(level, vector, geo.size(level));
    let g = index_laws::graph_of(y);
    lemma_unprobed(w, y);
    index_laws::lemma_held(y);
    layout::lemma_fresh_node(geo, level, vector);
    assert(keeps(index_laws::graph_of(w), g.push(layout::fresh_node(level, vector)))
        && graph_laws::sound(g, y.index.params) && entry_point_or_none(g, y.index.params)) by {
        reveal(goes_on);
        reveal(usable);
    }
    lemma_fresh_node_sound(g, y.index.params, level, vector);
    if r is Ok {
        index_laws::lemma_place_published(y, id, slot, e);
        recovery_laws::lemma_place_published_replays(y, node_id, id, slot);
        lemma_other_graph(w, y, w1);
    } else if is_stop(r->Err_0) {
        let z = unprobed(y);
        let (x, s) = model::place_published(z, tail, node_id, id, slot);
        assert(s is Ok && x.disk.pages == w1.disk.pages && x.disk.log == w1.disk.log) by {
            reveal(model::place_published);
        }
        index_laws::lemma_place_published(z, id, slot, e);
        recovery_laws::lemma_place_published_replays(z, node_id, id, slot);
        lemma_other_graph(w, z, x);
        lemma_residue(w, x, w1);
    } else {
        assert(w1.disk.pages == y.disk.pages && y.disk.log.len() <= w1.disk.log.len()) by {
            reveal(model::place_published);
        }
        lemma_pages_left(w, y, w1);
    }
}

/// The steps up to the fourth are safe.
proof fn lemma_begun_safe(w: World, vector: Seq<u32>)
    requires
        usable(w),
    ensures
        safe(w, model::begun(w, vector)),
{
    reveal(model::begun);
    lemma_goes_on(w);
    lemma_unprobed(w, w);
    index_laws::lemma_held(w);
    let ix = w.index;
    lemma_pages_left(w, w, w);
    if model::insert_fault(ix, vector) is None {
        rng::lemma_level_draw_bound(ix.rng, ix.params.m);
        let node_id = ix.hwm as u32;
        let (w1, level) = model::level_drawn(w);
        let len = model::geometry(ix.params).size(level) as usize;
        index_laws::lemma_held_by_pages(w, w1);
        recovery_laws::lemma_replays_nothing(w.disk);
        lemma_same_graph(w, w, w1);
        lemma_node_page_ready_safe(w, w1, len);
        index_laws::lemma_node_page_ready(w1, len);
        let (w2, r2) = model::node_page_ready(w1, len);
        if let Ok(id) = r2 {
            lemma_dir_tail_ready_safe(w, w2);
            index_laws::lemma_dir_tail_ready(w2);
            let (w3, r3) = model::dir_tail_ready(w2);
            if let Ok(tail) = r3 {
                lemma_entry_created_safe(w, w3, id, node_id, level, vector);
                index_laws::lemma_entry_created(w3, id, node_id, level, vector);
                let (w4, r4) = model::entry_created(w3, id, node_id, level, vector);
                if let Ok(slot) = r4 {
                    lemma_place_published_safe(w, w4, id, slot, level, vector);
                }
            }
        }
    }
}

/// Writing a list whose members have the level is safe.
proof fn lemma_list_written_safe(
    w: World,
    y: World,
    id: PageId,
    slot: u16,
    owner: u32,
    level: u8,
    list: Seq<u32>,
    contexts: (&'static str, &'static str, &'static str),
    mark: ProbeMark,
)
    requires
        goes_on(w, y),
        owner < y.index.hwm,
        (id, slot) == index_laws::place_of(y, owner as int),
        level <= index_laws::graph_of(y)[owner as int].top,
        graph_laws::targets_ok(list, level as int, graph_laws::tops(index_laws::graph_of(y))),
    ensures
        safe(w, model::list_written(y, id, slot, owner, level, list, contexts, mark)),
{
    let (w1, r) = model::list_written(y, id, slot, owner, level, list, contexts, mark);
    let z = unprobed(y);
    let (x, s) = model::list_written(z, id, slot, owner, level, list, contexts, mark);
    lemma_unprobed(w, y);
    index_laws::lemma_held(y);
    assert(index_laws::place_of(z, owner as int) == index_laws::place_of(y, owner as int));
    if r is Ok {
        index_laws::lemma_list_written(y, id, slot, owner, level, list, contexts, mark);
        recovery_laws::lemma_list_written_replays(y, id, slot, owner, level, list, contexts, mark);
        lemma_list_sound(w, y, owner as int, level, list);
        lemma_other_graph(w, y, w1);
    } else if is_stop(r->Err_0) {
        assert(s is Ok && x.disk.pages == w1.disk.pages && x.disk.log == w1.disk.log) by {
            reveal(model::list_written);
        }
        index_laws::lemma_list_written(z, id, slot, owner, level, list, contexts, mark);
        recovery_laws::lemma_list_written_replays(z, id, slot, owner, level, list, contexts, mark);
        lemma_list_sound(w, z, owner as int, level, list);
        lemma_other_graph(w, z, x);
        lemma_residue(w, x, w1);
    } else {
        assert(w1.disk.pages == y.disk.pages && y.disk.log.len() <= w1.disk.log.len()) by {
            reveal(model::list_written);
        }
        lemma_pages_left(w, y, w1);
    }
}

/// Another list that its owner may have, and whose members have the level,
/// leaves a graph in order.
proof fn lemma_list_sound(w: World, y: World, owner: int, level: u8, list: Seq<u32>)
    requires
        goes_on(w, y),
        0 <= owner < index_laws::graph_of(y).len(),
        level <= index_laws::graph_of(y)[owner].top,
        index_laws::list_ok(y.index.params, owner, level as int, list),
        graph_laws::targets_ok(list, level as int, graph_laws::tops(index_laws::graph_of(y))),
    ensures
        ({
            let g = index_laws::graph_of(y);
            let h = g.update(owner, layout::with_list(g[owner], level as int, list));
            &&& graph_laws::sound(h, y.index.params)
            &&& entry_point_or_none(h, y.index.params)
            &&& keeps(index_laws::graph_of(w), h)
        }),
{
    reveal(goes_on);
    reveal(usable);
    let q = y.index.params;
    let g = index_laws::graph_of(y);
    let n = layout::with_list(g[owner], level as int, list);
    let h = g.update(owner, n);
    assert(graph_laws::node_ok(q, g[owner]));
    assert(graph_laws::node_ok(q, n));
    assert(graph_laws::tops(h) =~= graph_laws::tops(g));
    assert forall|i: int, l: int| 0 <= i < h.len() && 0 <= l < h[i].lists.len() implies
        index_laws::list_ok(q, i, l, #[trigger] h[i].lists[l]) && graph_laws::targets_ok(
        h[i].lists[l],
        l,
        graph_laws::tops(g),
    ) by {
        if i != owner || l != level {
            assert(h[i].lists[l] == g[i].lists[l]);
            assert(index_laws::list_ok(q, i, l, g[i].lists[l]));
            assert(graph_laws::targets_ok(g[i].lists[l], l, graph_laws::tops(g)));
        }
    }
}

// ---------------------------------------------------------------------
// Connecting.
// ---------------------------------------------------------------------

/// The list that an edge to the new node makes has members that have the
/// level.
proof fn lemma_edge_targets(w: World, y: World, node_id: u32, nb: u32, level: u8, list: Seq<u32>)
    requires
        goes_on(w, y),
        node_id < index_laws::graph_of(y).len(),
        level <= index_laws::graph_of(y)[node_id as int].top,
        nb < index_laws::graph_of(y).len(),
        level < index_laws::graph_of(y)[nb as int].lists.len(),
        graph_laws::part_of(
            list,
            index_laws::with_member(
                index_laws::graph_of(y)[nb as int].lists[level as int],
                node_id,
            ),
        ),
    ensures
        graph_laws::targets_ok(list, level as int, graph_laws::tops(index_laws::graph_of(y))),
{
    reveal(goes_on);
    reveal(usable);
    let g = index_laws::graph_of(y);
    let old = g[nb as int].lists[level as int];
    let ts = graph_laws::tops(g);
    assert(graph_laws::targets_ok(old, level as int, ts));
    assert forall|x: u32| #[trigger] list.contains(x) implies x < ts.len() && level
        <= ts[x as int] by {
        graph_laws::lemma_with_member(old, node_id, x);
    }
}

/// Making an edge is safe.
proof fn lemma_edge_safe(w: World, y: World, node_id: u32, nb: u32, level: u8, cut: Seq<u32>)
    requires
        goes_on(w, y),
        node_id < index_laws::graph_of(y).len(),
        level <= index_laws::graph_of(y)[node_id as int].top,
        model::edge_planned(y, node_id, nb, level) matches Ok(plan) ==> plan.over
            ==> graph_laws::part_of(cut, plan.list),
    ensures
        safe(w, index_laws::edge_made(y, node_id, nb, level, cut)),
{
    lemma_unprobed(w, y);
    index_laws::lemma_held(y);
    index_laws::lemma_edge_planned(y, node_id, nb, level);
    match model::edge_planned(y, node_id, nb, level) {
        Err(e) => {
            assert(!is_stop(e));
            lemma_pages_left(w, y, y);
            let out = index_laws::edge_made(y, node_id, nb, level, cut);
            assert(out == (y, Err::<(), HnswError>(e)));
            let x = choose|x: World| #[trigger] left(w, x, y);
            assert(left(w, x, out.0));
        },
        Ok(plan) => {
            let list = if plan.over {
                cut
            } else {
                plan.list
            };
            lemma_edge_targets(w, y, node_id, nb, level, list);
            lemma_list_written_safe(
                w,
                y,
                plan.page_id,
                plan.slot,
                nb,
                level,
                list,
                (
                    "insert: pin_mut neighbor page",
                    "insert: encode SetNeighbors",
                    "insert: WAL append SetNeighbors",
                ),
                ProbeMark::NeighborEdge { level, shrank: plan.over },
            );
        },
    }
}

/// Connecting a level is safe.
proof fn lemma_level_connected_safe(
    w: World,
    y: World,
    node_id: u32,
    level: u8,
    c: LevelChoice,
    n: nat,
)
    requires
        goes_on(w, y),
        node_id + 1 == y.index.hwm,
        index_laws::unconnected(index_laws::graph_of(y).last()),
        level <= index_laws::graph_of(y).last().top,
        n <= c.neighbors.len(),
        forall|j: nat| j < n ==> #[trigger] graph_laws::cut_down(y, node_id, level, c, j),
    ensures
        safe(w, model::level_connected(y, node_id, level, c, n)),
    decreases n,
{
    reveal(model::level_connected);
    lemma_unprobed(w, y);
    index_laws::lemma_held(y);
    if n > 0 {
        lemma_level_connected_safe(w, y, node_id, level, c, (n - 1) as nat);
        index_laws::lemma_level_connected(y, node_id, level, c, (n - 1) as nat);
        let (before, r) = model::level_connected(y, node_id, level, c, (n - 1) as nat);
        let out = model::level_connected(y, node_id, level, c, n);
        let nb = c.neighbors[n - 1];
        if r is Ok {
            assert(graph_laws::cut_down(y, node_id, level, c, (n - 1) as nat));
            index_laws::lemma_held(before);
            assert(index_laws::graph_of(before)[node_id as int] == index_laws::graph_of(y).last());
            lemma_edge_safe(w, before, node_id, nb, level, c.shrunk[n - 1]);
            assert(out == index_laws::edge_made(before, node_id, nb, level, c.shrunk[n - 1]));
        } else {
            assert(out == (before, r));
        }
    }
}

/// Connecting is safe.
proof fn lemma_connected_safe(
    w: World,
    y: World,
    shared: nat,
    cs: Seq<LevelChoice>,
    k: nat,
)
    requires
        goes_on(w, y),
        index_laws::graph_of(w).len() + 1 == y.index.hwm,
        index_laws::graph_of(y).drop_last() == index_laws::graph_of(w),
        index_laws::unconnected(index_laws::graph_of(y).last()),
        shared <= index_laws::graph_of(y).last().top + 1,
        k <= cs.len(),
        k <= shared <= 256,
        graph_laws::all_cut_down(y, index_laws::graph_of(w).len() as u32, shared, cs),
    ensures
        safe(
            w,
            model::connected(y, index_laws::graph_of(w).len() as u32, shared, cs, k),
        ),
    decreases k,
{
    lemma_unprobed(w, y);
    index_laws::lemma_held(y);
    if k > 0 {
        let g = index_laws::graph_of(w);
        let node_id = g.len() as u32;
        let i = (k - 1) as nat;
        lemma_connected_safe(w, y, shared, cs, i);
        index_laws::lemma_connected(y, node_id, shared, cs, i);
        let (before, r) = model::connected(y, node_id, shared, cs, i);
        if r is Ok {
            let level = (shared - k) as u8;
            assert forall|j: nat| j < cs[k - 1].neighbors.len() implies #[trigger]
                graph_laws::cut_down(before, node_id, level, cs[k - 1], j) by {
                assert(graph_laws::cut_down(
                    model::connected(y, node_id, shared, cs, i).0,
                    node_id,
                    (shared - 1 - i) as u8,
                    cs[i as int],
                    j,
                ));
            }
            lemma_level_connected_safe(
                w,
                before,
                node_id,
                level,
                cs[k - 1],
                cs[k - 1].neighbors.len(),
            );
        }
    }
}

// ---------------------------------------------------------------------
// The end of an insertion.
// ---------------------------------------------------------------------

/// The sixth step is safe.
proof fn lemma_own_lists_safe(
    w: World,
    y: World,
    pending: PendingInsert,
    own: Seq<Seq<u32>>,
    n: nat,
)
    requires
        goes_on(w, y),
        pending.node_id.0 + 1 == y.index.hwm,
        index_laws::unconnected(index_laws::graph_of(y).last()),
        index_laws::graph_of(y).last().top == pending.level,
        (pending.page_id, pending.slot) == index_laws::place_of(y, pending.node_id.0 as int),
        n <= pending.level + 1,
        forall|l: int|
            0 <= l < n ==> graph_laws::targets_ok(
                #[trigger] model::own_list(own, l),
                l,
                graph_laws::tops(index_laws::graph_of(y)),
            ),
    ensures
        safe(w, model::own_lists_written(y, pending, own, n)),
    decreases n,
{
    if n > 0 {
        lemma_unprobed(w, y);
        index_laws::lemma_held(y);
        lemma_own_lists_safe(w, y, pending, own, (n - 1) as nat);
        index_laws::lemma_own_lists_written(y, pending, own, (n - 1) as nat);
        let (before, r) = model::own_lists_written(y, pending, own, (n - 1) as nat);
        let list = model::own_list(own, n - 1);
        if r is Ok && list.len() > 0 {
            let id = pending.node_id.0;
            let g = index_laws::graph_of(y);
            let h = index_laws::graph_of(before);
            assert(graph_laws::tops(h) =~= graph_laws::tops(g));
            assert(index_laws::place_of(before, id as int) == index_laws::place_of(y, id as int));
            lemma_list_written_safe(
                w,
                before,
                pending.page_id,
                pending.slot,
                id,
                (n - 1) as u8,
                list,
                (
                    "insert: pin_mut own node page",
                    "insert: encode own SetNeighbors",
                    "insert: WAL append own SetNeighbors",
                ),
                ProbeMark::OwnList { level: (n - 1) as u8 },
            );
        }
    }
}

/// The new node is an entry point of a graph in order.
proof fn lemma_raised_sound(w: World, y: World, pending: PendingInsert)
    requires
        goes_on(w, y),
        pending.node_id.0 < index_laws::graph_of(y).len(),
        index_laws::graph_of(y)[pending.node_id.0 as int].top == pending.level,
    ensures
        ({
            let g = index_laws::graph_of(y);
            let q = model::with_entry_point(y.index.params, pending);
            &&& keeps(index_laws::graph_of(w), g)
            &&& graph_laws::sound(g, q)
            &&& graph_laws::entry_point_ok(g, q)
            &&& entry_point_or_none(g, y.index.params)
            &&& graph_laws::sound(g, y.index.params)
        }),
{
    reveal(goes_on);
    reveal(usable);
    let g = index_laws::graph_of(y);
    let q = model::with_entry_point(y.index.params, pending);
    assert forall|i: int| 0 <= i < g.len() implies graph_laws::node_ok(q, #[trigger] g[i]) by {
        assert(graph_laws::node_ok(y.index.params, g[i]));
    }
    assert forall|i: int, l: int| 0 <= i < g.len() && 0 <= l < g[i].lists.len() implies
        index_laws::list_ok(q, i, l, #[trigger] g[i].lists[l]) by {
        assert(index_laws::list_ok(y.index.params, i, l, g[i].lists[l]));
    }
}

/// The seventh step is safe.
proof fn lemma_entry_point_raised_safe(w: World, y: World, pending: PendingInsert)
    requires
        goes_on(w, y),
        model::pending_ok(y.index, pending),
        pending.node_id.0 < y.index.hwm,
        index_laws::graph_of(y)[pending.node_id.0 as int].top == pending.level,
    ensures
        safe(w, model::entry_point_raised(y, pending)),
{
    let (w1, r) = model::entry_point_raised(y, pending);
    lemma_unprobed(w, y);
    index_laws::lemma_held(y);
    lemma_raised_sound(w, y, pending);
    if r is Ok {
        index_laws::lemma_entry_point_raised(y, pending);
        recovery_laws::lemma_entry_point_raised_replays(y, pending);
        lemma_other_graph(w, y, w1);
    } else if is_stop(r->Err_0) {
        let z = unprobed(y);
        let (x, s) = model::entry_point_raised(z, pending);
        assert(s is Ok && x.disk.pages == w1.disk.pages && x.disk.log == w1.disk.log) by {
            reveal(model::entry_point_raised);
        }
        index_laws::lemma_entry_point_raised(z, pending);
        recovery_laws::lemma_entry_point_raised_replays(z, pending);
        lemma_other_graph(w, z, x);
        lemma_residue(w, x, w1);
    } else {
        assert(w1.disk.pages == y.disk.pages && y.disk.log.len() <= w1.disk.log.len()) by {
            reveal(model::entry_point_raised);
        }
        lemma_pages_left(w, y, w1);
    }
}

/// A node that becomes live leaves a graph in order.
proof fn lemma_live_sound(w: World, y: World, i: int)
    requires
        goes_on(w, y),
        index_laws::graph_of(w).len() <= i < index_laws::graph_of(y).len(),
    ensures
        ({
            let g = index_laws::graph_of(y);
            let h = g.update(i, layout::made_live(g[i]));
            &&& graph_laws::sound(h, y.index.params)
            &&& entry_point_or_none(h, y.index.params)
            &&& keeps(index_laws::graph_of(w), h)
        }),
{
    reveal(goes_on);
    reveal(usable);
    let q = y.index.params;
    let g = index_laws::graph_of(y);
    let n = layout::made_live(g[i]);
    let h = g.update(i, n);
    assert(graph_laws::node_ok(q, g[i]));
    assert(graph_laws::node_ok(q, n));
    assert(graph_laws::tops(h) =~= graph_laws::tops(g));
    assert forall|k: int, l: int| 0 <= k < h.len() && 0 <= l < h[k].lists.len() implies
        index_laws::list_ok(q, k, l, #[trigger] h[k].lists[l]) && graph_laws::targets_ok(
        h[k].lists[l],
        l,
        graph_laws::tops(g),
    ) by {
        assert(h[k].lists[l] == g[k].lists[l]);
        assert(index_laws::list_ok(q, k, l, g[k].lists[l]));
        assert(graph_laws::targets_ok(g[k].lists[l], l, graph_laws::tops(g)));
    }
}

/// The last step is safe.
proof fn lemma_entry_published_safe(w: World, y: World, pending: PendingInsert)
    requires
        goes_on(w, y),
        index_laws::graph_of(w).len() <= pending.node_id.0 < y.index.hwm,
        (pending.page_id, pending.slot) == index_laws::place_of(y, pending.node_id.0 as int),
    ensures
        safe(w, model::entry_published(y, pending)),
{
    let (w1, r) = model::entry_published(y, pending);
    let i = pending.node_id.0 as int;
    let z = unprobed(y);
    lemma_unprobed(w, y);
    index_laws::lemma_held(y);
    lemma_live_sound(w, y, i);
    assert(index_laws::place_of(z, i) == index_laws::place_of(y, i));
    if r is Ok {
        index_laws::lemma_entry_published(y, pending);
        recovery_laws::lemma_entry_published_replays(y, pending);
        lemma_other_graph(w, y, w1);
    } else if is_stop(r->Err_0) {
        let (x, s) = model::entry_published(z, pending);
        assert(s is Ok && x.disk.pages == w1.disk.pages && x.disk.log == w1.disk.log) by {
            reveal(model::entry_published);
        }
        index_laws::lemma_entry_published(z, pending);
        recovery_laws::lemma_entry_published_replays(z, pending);
        lemma_other_graph(w, z, x);
        lemma_residue(w, x, w1);
    } else {
        assert(w1.disk.pages == y.disk.pages && y.disk.log.len() <= w1.disk.log.len()) by {
            reveal(model::entry_published);
        }
        lemma_pages_left(w, y, w1);
    }
}

/// The steps from the sixth on are safe.
proof fn lemma_finished_safe(
    w: World,
    y: World,
    pending: PendingInsert,
    own: Seq<Seq<u32>>,
)
    requires
        goes_on(w, y),
        model::pending_ok(y.index, pending),
        pending.node_id.0 == index_laws::graph_of(w).len(),
        pending.node_id.0 + 1 == y.index.hwm,
        index_laws::unconnected(index_laws::graph_of(y).last()),
        index_laws::graph_of(y).last().top == pending.level,
        (pending.page_id, pending.slot) == index_laws::place_of(y, pending.node_id.0 as int),
        forall|l: int|
            0 <= l < model::shared_levels(y.index, pending) ==> graph_laws::targets_ok(
                #[trigger] model::own_list(own, l),
                l,
                graph_laws::tops(index_laws::graph_of(y)),
            ),
    ensures
        safe(w, model::finished(y, pending, own)),
{
    reveal(model::finished);
    let n = model::shared_levels(y.index, pending);
    let i = pending.node_id.0 as int;
    lemma_unprobed(w, y);
    index_laws::lemma_held(y);
    lemma_own_lists_safe(w, y, pending, own, n);
    index_laws::lemma_own_lists_written(y, pending, own, n);
    let (w1, r1) = model::own_lists_written(y, pending, own, n);
    if r1 is Ok {
        lemma_unprobed(w, w1);
        index_laws::lemma_held(w1);
        lemma_entry_point_raised_safe(w, w1, pending);
        index_laws::lemma_entry_point_raised(w1, pending);
        let (w2, r2) = model::entry_point_raised(w1, pending);
        if r2 is Ok {
            assert(index_laws::place_of(w1, i) == index_laws::place_of(y, i));
            assert(index_laws::place_of(w2, i) == index_laws::place_of(y, i));
            lemma_entry_published_safe(w, w2, pending);
            let (w3, r3) = model::entry_published(w2, pending);
            if r3 is Ok {
                let w4 = World {
                    disk: Disk { durable: w3.disk.log.len() as u64, ..w3.disk },
                    ..w3
                };
                lemma_unprobed(w, w3);
                index_laws::lemma_held_by_pages(w3, w4);
                recovery_laws::lemma_replays_nothing(w3.disk);
                lemma_same_graph(w, w3, w4);
            }
        }
    }
}

/// The new node's neighbors have the levels on which they were chosen.
proof fn lemma_chosen_targets(
    g: Seq<NodeView>,
    q: MetaParams,
    h: Seq<NodeView>,
    shared: nat,
    cs: Seq<LevelChoice>,
)
    requires
        graph_laws::sound(g, q),
        g.len() <= h.len(),
        keeps(g, h),
        cs.len() == shared <= 256,
        index_laws::all_joinable(g, shared, cs, cs.len()),
    ensures
        forall|l: int|
            0 <= l < shared ==> graph_laws::targets_ok(
                #[trigger] model::own_list(model::chosen_lists(cs), l),
                l,
                graph_laws::tops(h),
            ),
{
    let ts = graph_laws::tops(h);
    assert forall|l: int| 0 <= l < shared implies graph_laws::targets_ok(
        #[trigger] model::own_list(model::chosen_lists(cs), l),
        l,
        ts,
    ) by {
        let i = cs.len() - 1 - l;
        let c = cs[i];
        assert(model::own_list(model::chosen_lists(cs), l) == c.neighbors);
        assert(index_laws::joinable(g, (shared - 1 - i) as u8, c, c.neighbors.len()));
        assert forall|x: u32| #[trigger] c.neighbors.contains(x) implies x < ts.len() && l
            <= ts[x as int] by {
            let j = choose|j: int| 0 <= j < c.neighbors.len() && c.neighbors[j] == x;
            assert(c.neighbors[j] < g.len());
            assert(graph_laws::node_ok(q, g[x as int]));
            assert(h[x as int] == NodeView { lists: h[x as int].lists, ..g[x as int] });
        }
    }
}

/// Wherever an insertion stops, and also where it succeeds, its pages are
/// those of an index that goes on from the one before: every node is there,
/// at most the new node besides, the graph is in order but may lack its entry
/// point, and the log replays to these pages. This takes that a list that is
/// over its capacity is cut down to a part of itself.
pub proof fn lemma_insertion_is_safe(w: World, vector: Seq<u32>, cs: Seq<LevelChoice>)
    requires
        usable(w),
        model::decided(w, vector, cs),
        graph_laws::cuts_down(w, vector, cs),
    ensures
        safe(w, model::inserted(w, vector, cs)),
{
    lemma_begun_safe(w, vector);
    lemma_goes_on(w);
    lemma_unprobed(w, w);
    index_laws::lemma_held(w);
    index_laws::lemma_begun_adds_a_fresh_node(w, vector);
    if let (w1, Ok(pending)) = model::begun(w, vector) {
        assert(model::index_ok(w.index)) by {
            reveal(index_laws::held);
        }
        model::lemma_begun_keeps(w, vector);
        let g = index_laws::graph_of(w);
        let shared = model::shared_levels(w1.index, pending);
        let id = pending.node_id.0;
        let fresh = layout::fresh_node(pending.level, vector);
        assert(index_laws::graph_of(w1).drop_last() =~= g);
        assert(index_laws::graph_of(w1).last() == fresh);
        assert(shared <= pending.level + 1);
        lemma_connected_safe(w, w1, shared, cs, cs.len());
        index_laws::lemma_connected(w1, id, shared, cs, cs.len());
        let (w2, r2) = model::connected(w1, id, shared, cs, cs.len());
        if r2 is Ok {
            lemma_unprobed(w, w2);
            index_laws::lemma_held(w2);
            assert(index_laws::place_of(w2, id as int) == index_laws::place_of(w1, id as int));
            let a = index_laws::joined(g, w.index.params, id, shared, cs, cs.len());
            assert(index_laws::graph_of(w2) == a.push(fresh));
            assert(index_laws::graph_of(w2).last() == fresh);
            assert(keeps(g, index_laws::graph_of(w2)) && graph_laws::sound(g, w.index.params)) by {
                reveal(goes_on);
                reveal(usable);
            }
            lemma_chosen_targets(g, w.index.params, index_laws::graph_of(w2), shared, cs);
            lemma_finished_safe(w, w2, pending, model::chosen_lists(cs));
        }
    }
}

// ---------------------------------------------------------------------
// Opening again.
// ---------------------------------------------------------------------

/// The world with the entry point that opening gives an index without one:
/// the first node.
pub open spec fn repaired(w: World) -> World {
    let top = index_laws::graph_of(w)[0].top;
    let id = w.index.meta_page_id;
    let payload = Payload::MetaUpdate { meta_page_id: id, entry_point: 0, max_level: top };
    let image = meta::meta_applied(w.disk.pages[id.0 as int], 0, top);
    let lsn = storage::next_lsn(w.disk.log);
    World {
        index: IndexView {
            params: MetaParams { entry_point: 0, max_level: top, ..w.index.params },
            ..w.index
        },
        disk: Disk {
            pages: w.disk.pages.update(id.0 as int, storage::with_lsn(image, lsn)),
            log: w.disk.log.push(storage::utility_record(w.disk.log, payload)),
            images: storage::imaged(
                w.disk.images,
                w.disk.checkpoint,
                w.disk.log,
                id,
                w.disk.pages[id.0 as int],
            ),
            ..w.disk
        },
    }
}

/// The repair gives the index an entry point and changes nothing else of it.
proof fn lemma_repaired(w: World)
    requires
        usable(w),
        index_laws::graph_of(w).len() > 0,
        w.disk.log.len() < storage::LOG_CAPACITY,
    ensures
        usable(repaired(w)),
        index_laws::graph_of(repaired(w)) == index_laws::graph_of(w),
        graph_laws::in_order(index_laws::graph_of(w), repaired(w).index.params),
        recovery_laws::replays(w.disk, repaired(w).disk),
{
    reveal(usable);
    let g = index_laws::graph_of(w);
    let q = w.index.params;
    let x = repaired(w);
    let q1 = x.index.params;
    let top = g[0].top;
    let id = w.index.meta_page_id;
    let p = w.disk.pages[id.0 as int];
    let lsn = storage::next_lsn(w.disk.log);
    index_laws::lemma_held(w);
    recovery_laws::lemma_meta_there(w);
    assert(graph_laws::node_ok(q, g[0]));
    rng::lemma_top_level_bound(q.m as nat);
    assert(model::index_ok(w.index)) by {
        reveal(index_laws::held);
    }
    assert(meta::valid(q1));
    index_laws::lemma_meta_page(p, q, 0, top, lsn);
    let image = meta::meta_applied(p, 0, top);
    index_laws::lemma_meta_replaced(w, x, storage::with_lsn(image, lsn));
    let payload = Payload::MetaUpdate { meta_page_id: id, entry_point: 0, max_level: top };
    assert(redo::post_image(w.disk.pages, payload) == Ok::<Seq<u8>, StorageError>(image)) by {
        reveal(redo::post_image);
    }
    recovery_laws::lemma_record_replays(
        w.disk,
        payload,
        "open-repair: encode MetaUpdate",
        "open-repair: WAL append",
        image,
    );
    assert forall|i: int| 0 <= i < g.len() implies graph_laws::node_ok(q1, #[trigger] g[i]) by {
        assert(graph_laws::node_ok(q, g[i]));
    }
    assert forall|i: int, l: int| 0 <= i < g.len() && 0 <= l < g[i].lists.len() implies
        index_laws::list_ok(q1, i, l, #[trigger] g[i].lists[l]) by {
        assert(index_laws::list_ok(q, i, l, g[i].lists[l]));
    }
}

/// What a repair reads: the directory, the first node's place and its level.
proof fn lemma_repair_reads(w: World)
    requires
        usable(w),
        index_laws::graph_of(w).len() > 0,
    ensures
        ({
            let pages = w.disk.pages;
            let q = w.index.params;
            let (id, slot) = index_laws::place_of(w, 0);
            let p = pages[id.0 as int];
            let top = index_laws::graph_of(w)[0].top;
            &&& dir::entry(pages[q.dir_head.0 as int], 0) == Ok::<(PageId, u16), HnswError>(
                (id, slot),
            )
            &&& id.0 < pages.len()
            &&& storage::pd_flags(p) == PAGE_TYPE_NODE
            &&& apply::state_of(p, slot, q.dim, "entry_top_level") matches Ok(b)
                && node::state_top(b) == top
            &&& top <= rng::top_level(q.m as nat) <= 63
        }),
{
    reveal(usable);
    let ix = w.index;
    let pages = w.disk.pages;
    let dirs = ix.dir_pages;
    index_laws::lemma_held(w);
    index_laws::lemma_node_there(w, 0);
    let (id, slot) = index_laws::place_of(w, 0);
    layout::lemma_entry_reads(pages[id.0 as int], slot, model::geometry(ix.params), 0);
    assert(graph_laws::node_ok(ix.params, index_laws::graph_of(w)[0]));
    rng::lemma_top_level_bound(ix.params.m as nat);
    lemma_directory_there(w);
    soundness::lemma_dir_position(pages, dirs, ix.hwm, 0);
    soundness::lemma_chain_pages(pages, dirs, 0);
}

/// The directory of an index.
proof fn lemma_directory_there(w: World)
    requires
        index_laws::held(w),
    ensures
        w.index.dir_head == w.index.params.dir_head,
        w.index.dir_pages[0] == w.index.dir_head,
        w.index.dir_head.0 != storage::INVALID_PAGE,
        dir::legal_chain(w.disk.pages, w.index.dir_pages),
        dir::tail_hwm(w.disk.pages[w.index.dir_pages.last().0 as int]) == w.index.hwm,
{
    reveal(index_laws::held);
}

/// The repair of an index that lacks its entry point succeeds.
proof fn lemma_repair_succeeds(w: World)
    requires
        usable(w),
        index_laws::graph_of(w).len() > 0,
        w.index.params.entry_point == params::INVALID_NODE,
        w.disk.log.len() < storage::LOG_CAPACITY,
    ensures
        ({
            let ix = w.index;
            let (d, r) = model::repaired(w.disk, ix.meta_page_id, ix.params, ix.hwm);
            d == repaired(w).disk && r is Ok
        }),
{
    reveal(usable);
    index_laws::lemma_held(w);
    recovery_laws::lemma_meta_there(w);
    lemma_repair_reads(w);
}

/// Opening an index that lacks its entry point repairs it, and succeeds.
proof fn lemma_opening_repairs(w: World, e: ExpectedParams)
    requires
        usable(w),
        index_laws::graph_of(w).len() > 0,
        w.index.params.entry_point == params::INVALID_NODE,
        w.disk.log.len() < storage::LOG_CAPACITY,
        meta::expectation_fault(w.index.params, e) is None,
    ensures
        model::opened(w.disk, w.index.meta_page_id, e).0 == repaired(w).disk,
        model::opened(w.disk, w.index.meta_page_id, e).1 is Ok,
{
    let ix = w.index;
    let pages = w.disk.pages;
    let dirs = ix.dir_pages;
    let context = "open: pin directory page";
    let r = repaired(w).disk.pages[ix.meta_page_id.0 as int];
    assert(index_laws::held(w)) by {
        reveal(usable);
    }
    index_laws::lemma_held(w);
    recovery_laws::lemma_meta_there(w);
    lemma_repair_succeeds(w);
    lemma_directory_there(w);
    dir::lemma_chain_is_the_legal_chain(pages, context, ix.dir_head, dirs);
    open_laws::lemma_chain_without_meta(pages, context, ix.dir_head, ix.meta_page_id, r);
    let last = (ix.hwm - 1) as u64;
    soundness::lemma_dir_position(pages, dirs, ix.hwm, last as int);
    soundness::lemma_chain_pages(pages, dirs, last as int / 813);
    let d1 = repaired(w).disk;
    assert(dirs[last as int / 813] != ix.meta_page_id);
    assert(model::last_node_page(d1.pages, dirs, ix.hwm) is Ok);
}

/// Opening what a stop left succeeds: the graph is the one on the pages, now
/// with its entry point, and the audit accepts it. The level draw goes on
/// after the last node's. At most one record is logged, and the log replays
/// to the pages.
pub proof fn lemma_opening_after_a_stop(w: World, e: ExpectedParams)
    requires
        usable(w),
        w.disk.log.len() < storage::LOG_CAPACITY,
        meta::expectation_fault(w.index.params, e) is None,
    ensures
        ({
            let (d, r) = model::opened(w.disk, w.index.meta_page_id, e);
            &&& r matches Ok((ix, warnings)) && {
                let x = World { index: ix, disk: d };
                &&& usable(x)
                &&& index_laws::graph_of(x) == index_laws::graph_of(w)
                &&& graph_laws::in_order(index_laws::graph_of(x), ix.params)
                &&& audit::audited(d.pages, ix.meta_page_id) is Ok
                &&& open_laws::settled(x)
            }
            &&& recovery_laws::replays(w.disk, d)
            &&& d.log.len() <= w.disk.log.len() + 1
        }),
{
    reveal(usable);
    let g = index_laws::graph_of(w);
    let (d, r) = model::opened(w.disk, w.index.meta_page_id, e);
    let y = if graph_laws::entry_point_ok(g, w.index.params) {
        w
    } else {
        repaired(w)
    };
    if graph_laws::entry_point_ok(g, w.index.params) {
        recovery_laws::lemma_replays_nothing(w.disk);
    } else {
        lemma_repaired(w);
        lemma_opening_repairs(w, e);
        open_laws::lemma_opening_twice(w.disk, w.index.meta_page_id, e);
    }
    open_laws::lemma_opening_gives_the_handle(y, e);
    let x = World { index: r->Ok_0.0, disk: d };
    audit_laws::lemma_audit_accepts_order(x);
}

/// Whatever comes of an insertion, success, failure or a stop, the index can
/// be opened afterwards: every node from before is there, unchanged but for
/// its neighbors, and at most the new node besides; the graph is in order, the
/// audit accepts it, and the level draw goes on after the last node's.
pub proof fn lemma_insertion_then_opening(
    w: World,
    vector: Seq<u32>,
    cs: Seq<LevelChoice>,
    e: ExpectedParams,
)
    requires
        usable(w),
        model::decided(w, vector, cs),
        graph_laws::cuts_down(w, vector, cs),
        model::inserted(w, vector, cs).0.disk.log.len() < storage::LOG_CAPACITY,
        meta::expectation_fault(w.index.params, e) is None,
    ensures
        ({
            let w1 = model::inserted(w, vector, cs).0;
            let (d, r) = model::opened(w1.disk, w.index.meta_page_id, e);
            r matches Ok((ix, warnings)) && {
                let x = World { index: ix, disk: d };
                &&& usable(x)
                &&& keeps(index_laws::graph_of(w), index_laws::graph_of(x))
                &&& graph_laws::in_order(index_laws::graph_of(x), ix.params)
                &&& audit::audited(d.pages, ix.meta_page_id) is Ok
                &&& open_laws::settled(x)
            }
        }),
{
    lemma_insertion_is_safe(w, vector, cs);
    let out = model::inserted(w, vector, cs);
    let y = if out.1 is Ok {
        out.0
    } else {
        choose|x: World| #[trigger] left(w, x, out.0)
    };
    assert(stands(w, y)) by {
        reveal(goes_on);
    }
    lemma_opening_after_a_stop(y, e);
}

/// A new index is usable, and the log replays to its pages.
pub proof fn lemma_created_is_usable(
    d: Disk,
    p: HnswParams,
    dim: u16,
    metric: Metric,
    selection: NeighborSelection,
    rng_seed: u64,
)
    requires
        recovery_laws::within_log(d),
        p.valid(),
    ensures
        model::created(d, p, dim, metric, selection, rng_seed) matches (d1, Ok(ix)) ==> {
            &&& usable(World { index: ix, disk: d1 })
            &&& recovery_laws::replays(d, d1)
        },
{
    reveal(usable);
    open_laws::lemma_created_is_empty(d, p, dim, metric, selection, rng_seed);
    if let (d2, Ok(ix)) = model::created(d, p, dim, metric, selection, rng_seed) {
        let head_image = page::blank_dir_page(0);
        let head_context = "create: allocate directory head";
        let d1 = model::allocated(d, head_image, head_context).0;
        let blank = page::blank_page(PAGE_TYPE_META);
        page::lemma_blank_dir_page(0);
        page::lemma_blank_page(PAGE_TYPE_META);
        meta::lemma_written_fields(blank, ix.params);
        recovery_laws::lemma_allocation_replays(d, head_image, head_context);
        recovery_laws::lemma_allocation_replays(
            d1,
            meta::meta_written(blank, ix.params),
            "create: allocate meta page",
        );
        recovery_laws::lemma_replays_in_turn(d, d1, d2);
    }
}

} // verus!
