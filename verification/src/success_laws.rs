//! When an insertion succeeds: whenever the vector is admitted, there is room
//! in the log and among the pages, and the choices are ones that a node can
//! be connected by.

use vstd::prelude::*;

use crate::apply;
use crate::error::HnswError;
use crate::graph_laws;
use crate::index_laws;
use crate::insert_laws;
use crate::layout;
use crate::layout::NodeView;
use crate::meta;
use crate::meta::MetaParams;
use crate::model;
use crate::model::LevelChoice;
use crate::model::PendingInsert;
use crate::model::ProbeMark;
use crate::model::World;
use crate::node;
use crate::page;
use crate::page::PAGE_TYPE_NODE;
use crate::paged;
use crate::rng;
use crate::soundness;
use crate::storage;
use crate::storage::PageId;

verus! {

/// The probe does not stop, and there is room for `n` records and two pages.
pub open spec fn roomy(w: World, n: int) -> bool {
    &&& w.index.probe.crash_after is None
    &&& w.disk.log.len() + n <= storage::LOG_CAPACITY
    &&& w.disk.pages.len() + 2 <= storage::INVALID_PAGE
}

/// The step from `w` to `w1` has logged `n` records and changed no number of
/// pages, and the probe still does not stop.
spec fn stepped(w: World, w1: World, n: int) -> bool {
    &&& w1.index.probe.crash_after is None
    &&& w1.disk.log.len() == w.disk.log.len() + n
    &&& w1.disk.pages.len() == w.disk.pages.len()
}

// ---------------------------------------------------------------------
// The pages.
// ---------------------------------------------------------------------

/// The page to append to has room for an entry of `len` bytes.
pub open spec fn has_room(w: World, len: usize) -> bool {
    w.index.current_node_page matches Some(id) && apply::selected(
        w.disk.pages[id.0 as int],
        len,
    ) is Ok
}

/// The last page of the directory has room for an entry.
pub open spec fn tail_has_room(w: World) -> bool {
    page::spec_dir_count(w.disk.pages[w.index.dir_pages.last().0 as int]) < 813
}

/// A blank node page at any log position has room for every entry that fits a
/// page.
proof fn lemma_blank_has_room(p: Seq<u8>, len: usize)
    requires
        layout::same_past_lsn(page::blank_page(PAGE_TYPE_NODE), p),
        len <= node::NODE_PAGE_USABLE,
    ensures
        apply::selected(p, len) is Ok,
{
    page::lemma_blank_page(PAGE_TYPE_NODE);
    let b = page::blank_page(PAGE_TYPE_NODE);
    assert(p[14] == b[14] && p[15] == b[15] && p[16] == b[16]);
    assert(p[17] == b[17] && p[18] == b[18] && p[19] == b[19]);
    assert(storage::pd_lower(p) == 32 && storage::pd_upper(p) == 8192);
    assert(storage::pd_special(p) == 8192);
}

/// The first step succeeds. It takes the page that is appended to if that has
/// room, and adds one page and one record if not.
proof fn lemma_node_page(w: World, len: usize)
    requires
        index_laws::held(w),
        roomy(w, 1),
        len <= node::NODE_PAGE_USABLE,
    ensures
        ({
            let (w1, r) = model::node_page_ready(w, len);
            let added = if has_room(w, len) {
                0int
            } else {
                1
            };
            &&& r is Ok
            &&& w1.index.probe.crash_after is None
            &&& w1.disk.log.len() == w.disk.log.len() + added
            &&& w1.disk.pages.len() == w.disk.pages.len() + added
            &&& r->Ok_0.0 < w1.disk.pages.len()
            &&& apply::selected(w1.disk.pages[r->Ok_0.0 as int], len) is Ok
            &&& forall|i: int|
                0 <= i < w.disk.pages.len() ==> #[trigger] w1.disk.pages[i] == w.disk.pages[i]
        }),
{
    reveal(model::node_page_ready);
    assert(w.index.current_node_page matches Some(id) ==> id.0 < w.disk.pages.len()) by {
        reveal(index_laws::held);
    }
    let image = page::blank_page(PAGE_TYPE_NODE);
    page::lemma_blank_page(PAGE_TYPE_NODE);
    index_laws::lemma_page_allocated(w, image, "alloc_node_page: allocate");
    let (disk, a) = model::allocated(w.disk, image, "alloc_node_page: allocate");
    assert(a is Ok);
    lemma_blank_has_room(disk.pages[a->Ok_0.0 as int], len);
}

/// The second step succeeds. It takes the last page of the directory if that
/// has room, and adds and links one page with two records if not.
proof fn lemma_dir_tail(w: World)
    requires
        index_laws::held(w),
        w.index.probe.crash_after is None,
        w.disk.log.len() + 2 <= storage::LOG_CAPACITY,
        w.disk.pages.len() + 1 <= storage::INVALID_PAGE,
    ensures
        ({
            let (w1, r) = model::dir_tail_ready(w);
            let added = if tail_has_room(w) {
                0int
            } else {
                1
            };
            &&& r is Ok
            &&& w1.index.probe.crash_after is None
            &&& w1.disk.log.len() == w.disk.log.len() + 2 * added
            &&& w1.disk.pages.len() == w.disk.pages.len() + added
            &&& forall|i: int|
                0 <= i < w.disk.pages.len() && i != w.index.dir_pages.last().0
                    ==> #[trigger] w1.disk.pages[i] == w.disk.pages[i]
            &&& r->Ok_0.0 < w1.disk.pages.len()
            &&& page::spec_dir_count(w1.disk.pages[r->Ok_0.0 as int]) < 813
        }),
{
    reveal(model::dir_tail_ready);
    let dirs = w.index.dir_pages;
    let tail = dirs.last();
    assert(tail.0 < w.disk.pages.len() && page::spec_dir_count(w.disk.pages[tail.0 as int])
        <= 813) by {
        reveal(index_laws::held);
        soundness::lemma_chain_pages(w.disk.pages, dirs, dirs.len() - 1);
    }
    let image = page::blank_dir_page(dirs.len() as u64);
    page::lemma_blank_dir_page(dirs.len() as u64);
    index_laws::lemma_page_allocated(w, image, "alloc_dir_page: allocate");
    let (disk, a) = model::allocated(w.disk, image, "alloc_dir_page: allocate");
    assert(a is Ok);
    soundness::lemma_dir_page_same(image, disk.pages[a->Ok_0.0 as int]);
}

// ---------------------------------------------------------------------
// The entry and its place.
// ---------------------------------------------------------------------

/// The third step succeeds.
proof fn lemma_entry(w: World, id: PageId, node_id: u32, level: u8, vector: Seq<u32>)
    requires
        index_laws::held(w),
        w.index.probe.crash_after is None,
        w.disk.log.len() < storage::LOG_CAPACITY,
        w.disk.pages.len() <= storage::INVALID_PAGE,
        w.index.current_node_page == Some(id),
        apply::selected(
            w.disk.pages[id.0 as int],
            model::geometry(w.index.params).size(level) as usize,
        ) is Ok,
        level <= 63,
        vector.len() == w.index.params.dim,
        node_id < u32::MAX,
    ensures
        ({
            let (w1, r) = model::entry_created(w, id, node_id, level, vector);
            &&& r is Ok
            &&& stepped(w, w1, 1)
            &&& forall|i: int|
                0 <= i < w.disk.pages.len() && i != id.0 ==> #[trigger] w1.disk.pages[i]
                    == w.disk.pages[i]
        }),
{
    reveal(model::entry_created);
    let geo = model::geometry(w.index.params);
    assert(id.0 < w.disk.pages.len() && w.index.meta_page_id.0 != storage::INVALID_PAGE) by {
        reveal(index_laws::held);
    }
    node::lemma_sizes(geo, level);
    let p = w.disk.pages[id.0 as int];
    let slot = apply::selected(p, geo.size(level) as usize)->Ok_0;
    assert(apply::lp(p, slot) is None);
    assert(apply::node_applied(p, slot, level, geo, vector) is Ok);
}

/// The fourth step succeeds.
proof fn lemma_place(w: World, tail: PageId, id: PageId, slot: u16)
    requires
        index_laws::held(w),
        w.index.probe.crash_after is None,
        w.disk.log.len() < storage::LOG_CAPACITY,
        w.disk.pages.len() <= storage::INVALID_PAGE,
        w.index.hwm < u32::MAX,
        tail == w.index.dir_pages.last(),
        page::spec_dir_count(w.disk.pages[tail.0 as int]) < 813,
        id.0 < w.disk.pages.len(),
    ensures
        ({
            let (w1, r) = model::place_published(w, tail, w.index.hwm as u32, id, slot);
            &&& r is Ok
            &&& stepped(w, w1, 1)
        }),
{
    reveal(model::place_published);
    let dirs = w.index.dir_pages;
    let p = w.disk.pages[tail.0 as int];
    assert(tail.0 < w.disk.pages.len() && dir_hwm(p) == w.index.hwm) by {
        reveal(index_laws::held);
        soundness::lemma_chain_pages(w.disk.pages, dirs, dirs.len() - 1);
    }
    assert(apply::dir_appended(p, w.index.hwm as u32, id, slot) is Ok);
}

/// How many entries a directory has that ends with this page.
spec fn dir_hwm(p: Seq<u8>) -> int {
    page::spec_dir_ordinal(p) * 813 + page::spec_dir_count(p)
}

/// How many pages the steps up to the fourth add: one for the entry if the
/// page that is appended to has no room for it, and one for the directory if
/// its last page is full.
pub open spec fn pages_added(w: World, len: usize) -> int {
    (if has_room(w, len) {
        0int
    } else {
        1
    }) + if tail_has_room(w) {
        0int
    } else {
        1
    }
}

/// The steps up to the fourth succeed, with the level that is drawn. They add
/// the pages that are needed, log one record for each and one for each link,
/// and two for the entry and its place.
pub proof fn lemma_begun_succeeds(w: World, vector: Seq<u32>)
    requires
        index_laws::held(w),
        roomy(w, 5),
        model::insert_fault(w.index, vector) is None,
    ensures
        ({
            let (w1, r) = model::begun(w, vector);
            let level = rng::level_draw(w.index.rng, w.index.params.m).0 as u8;
            let len = model::geometry(w.index.params).size(level) as usize;
            &&& r is Ok
            &&& w1.index.probe.crash_after is None
            &&& w1.disk.pages.len() == w.disk.pages.len() + pages_added(w, len)
            &&& w1.disk.log.len() == w.disk.log.len() + 2 + (if has_room(w, len) {
                0int
            } else {
                1
            }) + (if tail_has_room(w) {
                0int
            } else {
                2
            })
        }),
{
    reveal(model::begun);
    let ix = w.index;
    let q = ix.params;
    let geo = model::geometry(q);
    let node_id = ix.hwm as u32;
    index_laws::lemma_held(w);
    rng::lemma_level_draw_bound(ix.rng, q.m);
    let (w1, level) = model::level_drawn(w);
    index_laws::lemma_held_by_pages(w, w1);
    let len = geo.size(level) as usize;
    node::lemma_sizes(geo, level);
    assert(meta::valid(q)) by {
        reveal(index_laws::held);
    }
    node::lemma_created_entries_fit(q.dim, q.m, q.m_max0, level);
    lemma_node_page(w1, len);
    index_laws::lemma_node_page_ready(w1, len);
    let (w2, r2) = model::node_page_ready(w1, len);
    let id = r2->Ok_0;
    assert(tail_has_room(w2) == tail_has_room(w)) by {
        lemma_tail_there(w1);
    }
    lemma_dir_tail(w2);
    index_laws::lemma_dir_tail_ready(w2);
    let (w3, r3) = model::dir_tail_ready(w2);
    let tail = r3->Ok_0;
    lemma_kinds_differ(w2, id);
    assert(w3.disk.pages[id.0 as int] == w2.disk.pages[id.0 as int]);
    lemma_entry(w3, id, node_id, level, vector);
    index_laws::lemma_entry_created(w3, id, node_id, level, vector);
    let (w4, r4) = model::entry_created(w3, id, node_id, level, vector);
    let slot = r4->Ok_0;
    lemma_kinds_differ(w3, id);
    lemma_tail_there(w3);
    assert(w4.disk.pages[tail.0 as int] == w3.disk.pages[tail.0 as int]);
    lemma_place(w4, tail, id, slot);
}

/// The last page of the directory is there.
proof fn lemma_tail_there(w: World)
    requires
        index_laws::held(w),
    ensures
        w.index.dir_pages.last().0 < w.disk.pages.len(),
{
    reveal(index_laws::held);
    soundness::lemma_chain_pages(w.disk.pages, w.index.dir_pages, w.index.dir_pages.len() - 1);
}

/// The page to append to is none of the directory's.
proof fn lemma_kinds_differ(w: World, id: PageId)
    requires
        index_laws::held(w),
        w.index.current_node_page == Some(id),
    ensures
        id.0 < w.disk.pages.len(),
        id != w.index.dir_pages.last(),
{
    reveal(index_laws::held);
    soundness::lemma_chain_pages(w.disk.pages, w.index.dir_pages, w.index.dir_pages.len() - 1);
}

// ---------------------------------------------------------------------
// The lists.
// ---------------------------------------------------------------------

/// Writing a list that a node may have succeeds.
proof fn lemma_list(
    w: World,
    id: PageId,
    slot: u16,
    owner: u32,
    level: u8,
    list: Seq<u32>,
    contexts: (&'static str, &'static str, &'static str),
    mark: ProbeMark,
)
    requires
        index_laws::held(w),
        w.index.probe.crash_after is None,
        w.disk.log.len() < storage::LOG_CAPACITY,
        w.disk.pages.len() <= storage::INVALID_PAGE,
        owner < w.index.hwm,
        (id, slot) == index_laws::place_of(w, owner as int),
        level <= index_laws::graph_of(w)[owner as int].top,
        index_laws::list_ok(w.index.params, owner as int, level as int, list),
    ensures
        ({
            let (w1, r) = model::list_written(w, id, slot, owner, level, list, contexts, mark);
            r is Ok && stepped(w, w1, 1)
        }),
{
    reveal(model::list_written);
    index_laws::lemma_held(w);
    index_laws::lemma_node_there(w, owner as int);
    assert(w.index.meta_page_id.0 != storage::INVALID_PAGE) by {
        reveal(index_laws::held);
    }
    let geo = model::geometry(w.index.params);
    let p = w.disk.pages[id.0 as int];
    let e = layout::slot_bytes(p, slot)->0;
    assert(apply::neighbors_in(e, geo, level, "neighbor_iter") is Ok);
    assert(apply::neighbors_set(p, slot, geo, level, list) is Ok);
}

/// Making an edge to a node that is in none of the owner's lists succeeds.
proof fn lemma_edge(w: World, x: u32, nb: u32, level: u8, cut: Seq<u32>)
    requires
        index_laws::held(w),
        w.index.probe.crash_after is None,
        w.disk.log.len() < storage::LOG_CAPACITY,
        w.disk.pages.len() <= storage::INVALID_PAGE,
        nb < w.index.hwm,
        nb != x,
        level <= index_laws::graph_of(w)[nb as int].top,
        ({
            let list = index_laws::graph_of(w)[nb as int].lists[level as int];
            &&& index_laws::list_ok(w.index.params, nb as int, level as int, list)
            &&& forall|i: int| 0 <= i < list.len() ==> list[i] < x
            &&& list.len() >= insert_laws::room(w.index.params, level as int)
                ==> index_laws::list_ok(w.index.params, nb as int, level as int, cut)
        }),
    ensures
        ({
            let (w1, r) = index_laws::edge_made(w, x, nb, level, cut);
            r is Ok && stepped(w, w1, 1)
        }),
{
    let q = w.index.params;
    let geo = model::geometry(q);
    let pages = w.disk.pages;
    let list = index_laws::graph_of(w)[nb as int].lists[level as int];
    index_laws::lemma_held(w);
    index_laws::lemma_node_there(w, nb as int);
    let (id, slot) = index_laws::place_of(w, nb as int);
    assert(paged::resolved(pages, w.index.dir_pages, nb) == Ok::<(PageId, u16), HnswError>(
        (id, slot),
    )) by {
        reveal(index_laws::held);
        soundness::lemma_resolved(pages, w.index.dir_pages, w.index.hwm, nb);
    }
    layout::lemma_entry_reads(pages[id.0 as int], slot, geo, level);
    assert(apply::neighbors_of(pages[id.0 as int], slot, geo, level) == Ok::<Seq<u32>, HnswError>(
        list,
    ));
    insert_laws::lemma_rank_at_the_end(list, x);
    let plan = model::edge_planned(w, x, nb, level)->Ok_0;
    assert(model::edge_planned(w, x, nb, level) is Ok);
    assert(plan.list =~= list.push(x));
    let new = if plan.over {
        cut
    } else {
        plan.list
    };
    assert(index_laws::list_ok(q, nb as int, level as int, new)) by {
        if !plan.over {
            assert(storage::ascending(plan.list));
            assert(!plan.list.contains(nb)) by {
                if plan.list.contains(nb) {
                    let k = choose|k: int| 0 <= k < plan.list.len() && plan.list[k] == nb;
                    if k < list.len() {
                        assert(list[k] == nb);
                        assert(list.contains(nb));
                    }
                }
            }
        }
    }
    lemma_list(
        w,
        plan.page_id,
        plan.slot,
        nb,
        level,
        new,
        (
            "insert: pin_mut neighbor page",
            "insert: encode SetNeighbors",
            "insert: WAL append SetNeighbors",
        ),
        ProbeMark::NeighborEdge { level, shrank: plan.over },
    );
}

/// Choices on a level that a new node can be connected by: different nodes
/// that have the level, and for each whose list is full a list that it may
/// have instead.
pub open spec fn fitting(
    g: Seq<NodeView>,
    q: MetaParams,
    level: int,
    c: LevelChoice,
) -> bool {
    &&& forall|i: int, j: int|
        0 <= i < j < c.neighbors.len() ==> c.neighbors[i] < c.neighbors[j]
    &&& c.neighbors.len() <= insert_laws::room(q, level)
    &&& forall|j: int|
        0 <= j < c.neighbors.len() ==> {
            let nb = #[trigger] c.neighbors[j] as int;
            &&& nb < g.len()
            &&& level <= g[nb].top
            &&& level < g[nb].lists.len()
            &&& g[nb].lists[level].len() >= insert_laws::room(q, level) ==> index_laws::list_ok(
                q,
                nb,
                level,
                c.shrunk[j],
            )
        }
}

/// The lists on a level are ones that nodes may have, of nodes before `x`.
spec fn level_in_order(g: Seq<NodeView>, q: MetaParams, level: int, x: u32) -> bool {
    forall|i: int|
        0 <= i < g.len() && level < g[i].lists.len() ==> index_laws::list_ok(
            q,
            i,
            level,
            #[trigger] g[i].lists[level],
        ) && forall|p: int|
            0 <= p < g[i].lists[level].len() ==> #[trigger] g[i].lists[level][p] < x
}

/// Connecting a level by fitting choices succeeds, with one record for each.
proof fn lemma_level(w: World, x: u32, level: u8, c: LevelChoice, n: nat)
    requires
        index_laws::held(w),
        w.index.probe.crash_after is None,
        w.disk.log.len() + n <= storage::LOG_CAPACITY,
        w.disk.pages.len() <= storage::INVALID_PAGE,
        x + 1 == w.index.hwm,
        index_laws::unconnected(index_laws::graph_of(w).last()),
        n <= c.neighbors.len(),
        fitting(index_laws::graph_of(w).drop_last(), w.index.params, level as int, c),
        level_in_order(index_laws::graph_of(w).drop_last(), w.index.params, level as int, x),
    ensures
        ({
            let (w1, r) = model::level_connected(w, x, level, c, n);
            r is Ok && stepped(w, w1, n as int)
        }),
    decreases n,
{
    index_laws::lemma_held(w);
    let g = index_laws::graph_of(w);
    let old = g.drop_last();
    let q = w.index.params;
    if n == 0 {
        reveal(model::level_connected);
    } else {
        let m = (n - 1) as nat;
        lemma_level(w, x, level, c, m);
        index_laws::lemma_level_connected(w, x, level, c, m);
        index_laws::lemma_level_step(w, x, level, c, n);
        let w1 = model::level_connected(w, x, level, c, m).0;
        let cap = model::level_cap(q, level);
        let a = index_laws::level_joined(old, cap, x, level, c, m);
        assert(index_laws::graph_of(w1) == a.push(g.last()));
        let nb = c.neighbors[n - 1];
        assert(nb < old.len() && level <= old[nb as int].top);
        index_laws::lemma_level_joined_keeps(old, cap, x, level, c, m);
        assert forall|i: int, k: int|
            0 <= i < old.len() && level < old[i].lists.len() && 0 <= k
                < old[i].lists[level as int].len() implies
            #[trigger] old[i].lists[level as int][k] < x by {}
        insert_laws::lemma_level_lists(old, cap, x, level, c, m);
        assert forall|j: int| 0 <= j < m implies c.neighbors[j] != nb by {
            assert(c.neighbors[j] < c.neighbors[n - 1]);
        }
        assert(a[nb as int].lists[level as int] == old[nb as int].lists[level as int]);
        assert(a[nb as int] == NodeView { lists: a[nb as int].lists, ..old[nb as int] });
        assert(index_laws::graph_of(w1)[nb as int] == a[nb as int]);
        assert forall|p: int| 0 <= p < old[nb as int].lists[level as int].len() implies old[nb
            as int].lists[level as int][p] < x by {}
        lemma_edge(w1, x, nb, level, c.shrunk[n - 1]);
    }
}

/// How many neighbors are chosen on the first `k` levels.
pub open spec fn chosen(cs: Seq<LevelChoice>, k: nat) -> nat
    decreases k,
{
    if k == 0 {
        0
    } else {
        chosen(cs, (k - 1) as nat) + cs[k - 1].neighbors.len()
    }
}

/// The choices on all shared levels are fitting.
pub open spec fn all_fitting(g: Seq<NodeView>, q: MetaParams, cs: Seq<LevelChoice>) -> bool {
    forall|k: int| 0 <= k < cs.len() ==> fitting(g, q, cs.len() - 1 - k, #[trigger] cs[k])
}

/// Connecting all levels by fitting choices succeeds.
proof fn lemma_levels(w: World, x: u32, cs: Seq<LevelChoice>, k: nat)
    requires
        index_laws::held(w),
        w.index.probe.crash_after is None,
        w.disk.log.len() + chosen(cs, k) <= storage::LOG_CAPACITY,
        w.disk.pages.len() <= storage::INVALID_PAGE,
        x + 1 == w.index.hwm,
        index_laws::unconnected(index_laws::graph_of(w).last()),
        k <= cs.len() <= 256,
        all_fitting(index_laws::graph_of(w).drop_last(), w.index.params, cs),
        forall|l: int|
            0 <= l < cs.len() ==> #[trigger] level_in_order(
                index_laws::graph_of(w).drop_last(),
                w.index.params,
                l,
                x,
            ),
        forall|i: int, l: int, p: int|
            ({
                let g = index_laws::graph_of(w).drop_last();
                0 <= i < g.len() && 0 <= l < g[i].lists.len() && 0 <= p < g[i].lists[l].len()
            }) ==> #[trigger] index_laws::graph_of(w).drop_last()[i].lists[l][p] < x,
    ensures
        ({
            let (w1, r) = model::connected(w, x, cs.len(), cs, k);
            r is Ok && stepped(w, w1, chosen(cs, k) as int)
        }),
    decreases k,
{
    if k > 0 {
        let m = (k - 1) as nat;
        let g = index_laws::graph_of(w);
        let old = g.drop_last();
        let q = w.index.params;
        let level = (cs.len() - k) as u8;
        let c = cs[k - 1];
        index_laws::lemma_held(w);
        lemma_levels(w, x, cs, m);
        index_laws::lemma_connected(w, x, cs.len(), cs, m);
        let w1 = model::connected(w, x, cs.len(), cs, m).0;
        let a = index_laws::joined(old, q, x, cs.len(), cs, m);
        assert(index_laws::graph_of(w1) == a.push(g.last()));
        assert(a.push(g.last()).drop_last() =~= a);
        assert forall|b: int, i: int, j: int|
            0 <= b < m && 0 <= i < j < cs[b].neighbors.len() implies
            #[trigger] cs[b].neighbors[i] != #[trigger] cs[b].neighbors[j] by {
            assert(fitting(old, q, cs.len() - 1 - b, cs[b]));
        }
        insert_laws::lemma_joined_lists(old, q, x, cs, m);
        index_laws::lemma_joined_keeps(old, q, x, cs.len(), cs, m);
        assert(fitting(old, q, cs.len() - 1 - (k - 1), cs[k - 1]));
        assert(level_in_order(old, q, level as int, x));
        lemma_fitting_kept(old, a, q, level as int, c, x);
        lemma_level(w1, x, level, c, c.neighbors.len());
    }
}

/// What fits a graph fits one with the same nodes and the same lists on the
/// level.
proof fn lemma_fitting_kept(
    g: Seq<NodeView>,
    h: Seq<NodeView>,
    q: MetaParams,
    level: int,
    c: LevelChoice,
    x: u32,
)
    requires
        fitting(g, q, level, c),
        level_in_order(g, q, level, x),
        index_laws::same_but_lists(g, h),
        0 <= level,
        forall|i: int, l: int|
            0 <= i < g.len() && 0 <= l < g[i].lists.len() && l <= level ==> #[trigger] h[i].lists[l]
                == g[i].lists[l],
    ensures
        fitting(h, q, level, c),
        level_in_order(h, q, level, x),
{
    assert forall|i: int| 0 <= i < h.len() && level < h[i].lists.len() implies index_laws::list_ok(
        q,
        i,
        level,
        #[trigger] h[i].lists[level],
    ) && forall|p: int|
        0 <= p < h[i].lists[level].len() ==> #[trigger] h[i].lists[level][p] < x by {
        assert(h[i].lists.len() == g[i].lists.len());
        assert(h[i].lists[level] == g[i].lists[level]);
    }
    assert forall|j: int| 0 <= j < c.neighbors.len() implies {
        let nb = #[trigger] c.neighbors[j] as int;
        &&& nb < h.len()
        &&& level <= h[nb].top
        &&& level < h[nb].lists.len()
        &&& h[nb].lists[level].len() >= insert_laws::room(q, level) ==> index_laws::list_ok(
            q,
            nb,
            level,
            c.shrunk[j],
        )
    } by {
        let nb = c.neighbors[j] as int;
        assert(h[nb] == NodeView { lists: h[nb].lists, ..g[nb] });
        assert(h[nb].lists[level] == g[nb].lists[level]);
    }
}

// ---------------------------------------------------------------------
// The end, and the whole.
// ---------------------------------------------------------------------

/// How many of the first `n` lists are not empty.
pub open spec fn nonempty(own: Seq<Seq<u32>>, n: nat) -> nat
    decreases n,
{
    if n == 0 {
        0
    } else {
        nonempty(own, (n - 1) as nat) + if model::own_list(own, n - 1).len() > 0 {
            1nat
        } else {
            0
        }
    }
}

/// Writing the new node's lists succeeds, with one record for each that is not
/// empty.
proof fn lemma_own_lists(w: World, pending: PendingInsert, own: Seq<Seq<u32>>, n: nat)
    requires
        index_laws::held(w),
        w.index.probe.crash_after is None,
        w.disk.log.len() + nonempty(own, n) <= storage::LOG_CAPACITY,
        w.disk.pages.len() <= storage::INVALID_PAGE,
        pending.node_id.0 + 1 == w.index.hwm,
        index_laws::unconnected(index_laws::graph_of(w).last()),
        index_laws::graph_of(w).last().top == pending.level,
        (pending.page_id, pending.slot) == index_laws::place_of(w, pending.node_id.0 as int),
        n <= pending.level + 1,
        forall|l: int|
            0 <= l < n ==> index_laws::list_ok(
                w.index.params,
                pending.node_id.0 as int,
                l,
                #[trigger] model::own_list(own, l),
            ),
    ensures
        ({
            let (w1, r) = model::own_lists_written(w, pending, own, n);
            r is Ok && stepped(w, w1, nonempty(own, n) as int)
        }),
    decreases n,
{
    if n > 0 {
        let m = (n - 1) as nat;
        lemma_own_lists(w, pending, own, m);
        index_laws::lemma_own_lists_written(w, pending, own, m);
        index_laws::lemma_held(w);
        let w1 = model::own_lists_written(w, pending, own, m).0;
        let list = model::own_list(own, n - 1);
        let i = pending.node_id.0 as int;
        assert(index_laws::place_of(w1, i) == index_laws::place_of(w, i));
        let g = index_laws::graph_of(w);
        assert(index_laws::graph_of(w1)[i] == index_laws::listed(g.last(), own, m));
        if list.len() > 0 {
            lemma_list(
                w1,
                pending.page_id,
                pending.slot,
                pending.node_id.0,
                (n - 1) as u8,
                list,
                (
                    "insert: pin_mut own node page",
                    "insert: encode own SetNeighbors",
                    "insert: WAL append own SetNeighbors",
                ),
                ProbeMark::OwnList { level: (n - 1) as u8 },
            );
        }
    }
}

/// The seventh step succeeds, with a record if the entry point changes.
proof fn lemma_raised(w: World, pending: PendingInsert)
    requires
        index_laws::held(w),
        w.index.probe.crash_after is None,
        w.disk.log.len() < storage::LOG_CAPACITY,
        pending.level <= 63,
        pending.node_id.0 < u32::MAX,
    ensures
        ({
            let (w1, r) = model::entry_point_raised(w, pending);
            let first = w.index.params.entry_point == 0xffff_ffff;
            &&& r is Ok
            &&& stepped(
                w,
                w1,
                if first || pending.level > w.index.params.max_level {
                    1
                } else {
                    0
                },
            )
        }),
{
    reveal(model::entry_point_raised);
    assert(w.index.meta_page_id.0 < w.disk.pages.len() && w.index.meta_page_id.0
        != storage::INVALID_PAGE) by {
        reveal(index_laws::held);
    }
}

/// The last step succeeds.
proof fn lemma_published(w: World, pending: PendingInsert)
    requires
        index_laws::held(w),
        w.index.probe.crash_after is None,
        w.disk.log.len() < storage::LOG_CAPACITY,
        w.disk.pages.len() <= storage::INVALID_PAGE,
        pending.node_id.0 < w.index.hwm,
        (pending.page_id, pending.slot) == index_laws::place_of(w, pending.node_id.0 as int),
    ensures
        ({
            let (w1, r) = model::entry_published(w, pending);
            r is Ok && stepped(w, w1, 1)
        }),
{
    reveal(model::entry_published);
    index_laws::lemma_held(w);
    index_laws::lemma_node_there(w, pending.node_id.0 as int);
    assert(w.index.meta_page_id.0 != storage::INVALID_PAGE) by {
        reveal(index_laws::held);
    }
}

/// An insertion into a graph in order succeeds whenever the vector is
/// admitted, there is room for two pages and for the records, and the choices
/// are fitting, one for each level that the new node shares with the graph. It
/// adds a page for entries if the current one has no room, and one for the
/// directory if its last is full, and no other. It logs a record for each page
/// and each link, for the entry and its place, for each chosen neighbor, for
/// each level with neighbors, for a change of the entry point, and for the
/// end; and all of them are durable.
pub proof fn lemma_insertion_succeeds(w: World, vector: Seq<u32>, cs: Seq<LevelChoice>)
    requires
        index_laws::held(w),
        graph_laws::in_order(index_laws::graph_of(w), w.index.params),
        model::insert_fault(w.index, vector) is None,
        cs.len() == insert_laws::levels_shared(
            index_laws::graph_of(w),
            w.index.params,
            rng::level_draw(w.index.rng, w.index.params.m).0 as int,
        ),
        all_fitting(index_laws::graph_of(w), w.index.params, cs),
        roomy(w, 7 + chosen(cs, cs.len()) as int + cs.len()),
    ensures
        ({
            let (w1, r) = model::inserted(w, vector, cs);
            let q = w.index.params;
            let g = index_laws::graph_of(w);
            let level = rng::level_draw(w.index.rng, q.m).0 as u8;
            let len = model::geometry(q).size(level) as usize;
            let own = model::chosen_lists(cs);
            &&& r is Ok
            &&& w1.disk.pages.len() == w.disk.pages.len() + pages_added(w, len)
            &&& w1.disk.log.len() == w.disk.log.len() + 3 + (if has_room(w, len) {
                0int
            } else {
                1
            }) + (if tail_has_room(w) {
                0int
            } else {
                2
            }) + chosen(cs, cs.len()) + nonempty(own, cs.len()) + if g.len() == 0 || level
                > q.max_level {
                1int
            } else {
                0
            }
            &&& w1.disk.durable == w1.disk.log.len()
        }),
{
    let q = w.index.params;
    let g = index_laws::graph_of(w);
    index_laws::lemma_held(w);
    lemma_begun_succeeds(w, vector);
    index_laws::lemma_begun_adds_a_fresh_node(w, vector);
    assert(model::index_ok(w.index)) by {
        reveal(index_laws::held);
    }
    model::lemma_begun_keeps(w, vector);
    let (w1, b) = model::begun(w, vector);
    let pending = b->Ok_0;
    let x = pending.node_id.0;
    let fresh = layout::fresh_node(pending.level, vector);
    assert(index_laws::graph_of(w1).drop_last() =~= g);
    assert(index_laws::graph_of(w1).last() == fresh);
    assert(cs.len() == model::shared_levels(w1.index, pending));
    assert forall|i: int, l: int, p: int|
        0 <= i < g.len() && 0 <= l < g[i].lists.len() && 0 <= p < g[i].lists[l].len() implies
        #[trigger] g[i].lists[l][p] < x by {
        assert(g[i].lists[l].contains(g[i].lists[l][p]));
        assert(graph_laws::targets_ok(g[i].lists[l], l, graph_laws::tops(g)));
    }
    assert forall|l: int| 0 <= l < cs.len() implies #[trigger] level_in_order(g, q, l, x) by {
        assert forall|i: int| 0 <= i < g.len() && l < g[i].lists.len() implies
            index_laws::list_ok(q, i, l, #[trigger] g[i].lists[l]) && forall|p: int|
            0 <= p < g[i].lists[l].len() ==> #[trigger] g[i].lists[l][p] < x by {}
    }
    lemma_levels(w1, x, cs, cs.len());
    index_laws::lemma_connected(w1, x, cs.len(), cs, cs.len());
    let w2 = model::connected(w1, x, cs.len(), cs, cs.len()).0;
    let own = model::chosen_lists(cs);
    let a = index_laws::joined(g, q, x, cs.len(), cs, cs.len());
    assert(index_laws::graph_of(w2) == a.push(fresh));
    assert(index_laws::graph_of(w2).last() == fresh);
    assert forall|l: int| 0 <= l < cs.len() implies index_laws::list_ok(
        q,
        x as int,
        l,
        #[trigger] model::own_list(own, l),
    ) by {
        let k = cs.len() - 1 - l;
        assert(fitting(g, q, cs.len() - 1 - k, cs[k]));
        let list = cs[k].neighbors;
        assert(model::own_list(own, l) == list);
        assert(!list.contains(x)) by {
            if list.contains(x) {
                let j = choose|j: int| 0 <= j < list.len() && list[j] == x;
                assert(list[j] < g.len());
            }
        }
    }
    lemma_nonempty(own, cs.len());
    reveal(model::finished);
    lemma_own_lists(w2, pending, own, cs.len());
    index_laws::lemma_own_lists_written(w2, pending, own, cs.len());
    let w3 = model::own_lists_written(w2, pending, own, cs.len()).0;
    lemma_raised(w3, pending);
    index_laws::lemma_entry_point_raised(w3, pending);
    let w4 = model::entry_point_raised(w3, pending).0;
    assert(index_laws::place_of(w2, x as int) == index_laws::place_of(w1, x as int));
    assert(index_laws::place_of(w3, x as int) == index_laws::place_of(w2, x as int));
    assert(index_laws::place_of(w4, x as int) == index_laws::place_of(w3, x as int));
    lemma_published(w4, pending);
}

/// No more lists are not empty than there are.
proof fn lemma_nonempty(own: Seq<Seq<u32>>, n: nat)
    ensures
        nonempty(own, n) <= n,
    decreases n,
{
    if n > 0 {
        lemma_nonempty(own, (n - 1) as nat);
    }
}

} // verus!
