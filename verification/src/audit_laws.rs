//! What the audit decides.
//!
//! On pages that hold an index, the audit accepts exactly the graphs that are
//! in order, and its report counts what they hold.

use vstd::prelude::*;

use crate::apply;
use crate::audit;
use crate::audit::Entry;
use crate::dir;
use crate::error::HnswError;
use crate::graph;
use crate::graph_laws;
use crate::index_laws;
use crate::layout;
use crate::layout::NodeView;
use crate::meta::MetaParams;
use crate::model;
use crate::model::LevelChoice;
use crate::model::World;
use crate::node;
use crate::paged;
use crate::rng;
use crate::soundness;
use crate::storage::PageId;

verus! {

/// How many nodes are live.
pub open spec fn live_nodes(g: Seq<NodeView>) -> nat
    decreases g.len(),
{
    if g.len() == 0 {
        0
    } else {
        live_nodes(g.drop_last()) + if g.last().live {
            1nat
        } else {
            0
        }
    }
}

/// How many nodes are marked deleted.
pub open spec fn tombstoned_nodes(g: Seq<NodeView>) -> nat
    decreases g.len(),
{
    if g.len() == 0 {
        0
    } else {
        tombstoned_nodes(g.drop_last()) + if g.last().tombstoned {
            1nat
        } else {
            0
        }
    }
}

/// How many members the first `n` lists have together.
pub open spec fn list_total(lists: Seq<Seq<u32>>, n: nat) -> nat
    decreases n,
{
    if n == 0 {
        0
    } else {
        list_total(lists, (n - 1) as nat) + lists[n - 1].len()
    }
}

/// How many edges the first `n` nodes have together.
pub open spec fn edge_total(g: Seq<NodeView>, n: nat) -> nat
    decreases n,
{
    if n == 0 {
        0
    } else {
        edge_total(g, (n - 1) as nat) + list_total(g[n - 1].lists, g[n - 1].lists.len())
    }
}

/// Node `i` as the audit lists it.
pub open spec fn entry_of(w: World, i: int) -> Entry {
    let n = index_laws::graph_of(w)[i];
    Entry {
        place: index_laws::place_of(w, i),
        top: n.top,
        live: n.live,
        tombstoned: n.tombstoned,
    }
}

/// The first `n` nodes as the audit lists them.
pub open spec fn entries_of(w: World, n: nat) -> Seq<Entry> {
    Seq::new(n, |i: int| entry_of(w, i))
}

/// What a node of an index always is: its lists go up to its top, and its
/// vector has the index's dimension.
proof fn lemma_node(w: World, i: int)
    requires
        index_laws::held(w),
        0 <= i < w.index.hwm,
    ensures
        ({
            let q = w.index.params;
            let geo = model::geometry(q);
            let pages = w.disk.pages;
            let (id, slot) = index_laws::place_of(w, i);
            let n = index_laws::graph_of(w)[i];
            &&& n.lists.len() == n.top + 1
            &&& n.top <= 63
            &&& n.vector.len() == q.dim
            &&& paged::resolved(pages, w.index.dir_pages, i as u32) == Ok::<
                (PageId, u16),
                HnswError,
            >((id, slot))
            &&& id.0 < pages.len()
            &&& layout::node_page_ok(pages[id.0 as int])
            &&& layout::slot_bytes(pages[id.0 as int], slot) matches Some(e) && layout::entry_ok(
                e,
                geo,
            ) && layout::node_in(e, geo) == n
        }),
{
    reveal(index_laws::held);
    reveal(index_laws::graph_of);
    let pages = w.disk.pages;
    let dirs = w.index.dir_pages;
    let geo = model::geometry(w.index.params);
    soundness::lemma_dir_position(pages, dirs, w.index.hwm, i);
    soundness::lemma_resolved(pages, dirs, w.index.hwm, i as u32);
    assert(soundness::placed(pages, dirs, geo, i));
    let (id, slot) = index_laws::place_of(w, i);
    let e = layout::slot_bytes(pages[id.0 as int], slot)->0;
    let b = e[4 * geo.dim];
    node::lemma_state_bits_are_independent(b);
}

/// The checks on the slot of an entry in order.
proof fn lemma_entry_checks(p: Seq<u8>, slot: u16, q: MetaParams, i: u64)
    requires
        q.dim >= 1,
        q.m >= 2,
        layout::node_page_ok(p),
        layout::slot_bytes(p, slot) matches Some(e) && layout::entry_ok(e, model::geometry(q)),
    ensures
        ({
            let n = layout::node_in(layout::slot_bytes(p, slot)->0, model::geometry(q));
            let s = audit::state_check(p, slot, q, i);
            &&& apply::slots(p) matches Ok(k) && slot < k
            &&& audit::stored_vector_check(p, slot, q, i) is Ok <==> graph::vector_check(
                q.metric,
                n.vector,
            ) is Ok
            &&& s is Ok <==> n.top <= rng::top_level(q.m as nat) && (n.tombstoned ==> n.live)
            &&& s matches Ok(t) ==> t == (n.top, n.live, n.tombstoned)
        }),
{
    layout::lemma_entry_reads(p, slot, model::geometry(q), 0);
    let n = layout::node_in(layout::slot_bytes(p, slot)->0, model::geometry(q));
    graph::lemma_first_nonfinite(n.vector);
    rng::lemma_top_level_bound(q.m as nat);
}

/// The check of one entry.
proof fn lemma_entry_check(w: World, i: u64)
    requires
        index_laws::held(w),
        i < w.index.hwm,
    ensures
        ({
            let q = w.index.params;
            let seen = audit::places(entries_of(w, i as nat));
            let r = audit::entry_check(w.disk.pages, w.index.dir_pages, q, seen, i);
            &&& r is Ok <==> graph_laws::node_ok(q, index_laws::graph_of(w)[i as int])
            &&& r matches Ok(e) ==> e == entry_of(w, i as int)
        }),
{
    index_laws::lemma_held(w);
    lemma_node(w, i as int);
    let q = w.index.params;
    let geo = model::geometry(q);
    let n = index_laws::graph_of(w)[i as int];
    let place = index_laws::place_of(w, i as int);
    let p = w.disk.pages[place.0.0 as int];
    let seen = audit::places(entries_of(w, i as nat));
    lemma_entry_checks(p, place.1, q, i);
    assert(!seen.contains(place)) by {
        if seen.contains(place) {
            let j = choose|j: int| 0 <= j < seen.len() && seen[j] == place;
            reveal(index_laws::held);
            assert(index_laws::place_of(w, j) == index_laws::place_of(w, i as int));
        }
    }
}

/// The checks of the first entries.
proof fn lemma_entries(w: World, n: nat)
    requires
        index_laws::held(w),
        n <= w.index.hwm,
    ensures
        ({
            let q = w.index.params;
            let g = index_laws::graph_of(w);
            let r = audit::entries(w.disk.pages, w.index.dir_pages, q, n);
            &&& r is Ok <==> forall|i: int| 0 <= i < n ==> graph_laws::node_ok(q, #[trigger] g[i])
            &&& r matches Ok(es) ==> es == entries_of(w, n)
        }),
    decreases n,
{
    if n > 0 {
        lemma_entries(w, (n - 1) as nat);
        lemma_entry_check(w, (n - 1) as u64);
        let q = w.index.params;
        let g = index_laws::graph_of(w);
        let r = audit::entries(w.disk.pages, w.index.dir_pages, q, n);
        let before = audit::entries(w.disk.pages, w.index.dir_pages, q, (n - 1) as nat);
        if before is Ok {
            assert(entries_of(w, (n - 1) as nat).push(entry_of(w, n - 1)) =~= entries_of(w, n));
            if graph_laws::node_ok(q, g[n - 1]) {
                assert forall|i: int| 0 <= i < n implies graph_laws::node_ok(q, #[trigger] g[i]) by {}
            }
        } else {
            let i = choose|i: int| 0 <= i < n - 1 && !graph_laws::node_ok(q, #[trigger] g[i]);
            assert(!graph_laws::node_ok(q, g[i]));
        }
    } else {
        assert(entries_of(w, 0) =~= Seq::<Entry>::empty());
    }
}

/// The check of the first edges of a list.
proof fn lemma_edge_fault(ts: Seq<u8>, id: u64, level: u8, list: Seq<u32>, n: nat)
    requires
        n <= list.len(),
    ensures
        audit::edge_fault(ts, id, level, list, n) is None <==> forall|j: int|
            0 <= j < n ==> {
                &&& (#[trigger] list[j]) != id
                &&& list[j] < ts.len()
                &&& level <= ts[list[j] as int]
            },
    decreases n,
{
    if n > 0 {
        lemma_edge_fault(ts, id, level, list, (n - 1) as nat);
        if audit::edge_fault(ts, id, level, list, n) is None {
            assert forall|j: int| 0 <= j < n implies (#[trigger] list[j]) != id && list[j]
                < ts.len() && level <= ts[list[j] as int] by {
                if j == n - 1 {
                    assert(list[n - 1] != id);
                }
            }
        } else if audit::edge_fault(ts, id, level, list, (n - 1) as nat) is None {
            assert(list[n - 1] == id || list[n - 1] >= ts.len() || level > ts[list[n - 1] as int]);
        }
    }
}

/// A list that a node may have, with edges that lead where edges may lead.
pub open spec fn level_ok(q: MetaParams, ts: Seq<u8>, i: int, l: int, list: Seq<u32>) -> bool {
    &&& index_laws::list_ok(q, i, l, list)
    &&& graph_laws::targets_ok(list, l, ts)
}

/// The check of one list.
proof fn lemma_level_edges(w: World, ts: Seq<u8>, i: u64, l: u8)
    requires
        index_laws::held(w),
        i < w.index.hwm,
        l <= index_laws::graph_of(w)[i as int].top,
    ensures
        ({
            let q = w.index.params;
            let (id, slot) = index_laws::place_of(w, i as int);
            let p = w.disk.pages[id.0 as int];
            let list = index_laws::graph_of(w)[i as int].lists[l as int];
            let r = audit::level_edges(p, slot, audit::geometry(q), ts, i, l);
            &&& r is Ok <==> level_ok(q, ts, i as int, l as int, list)
            &&& r matches Ok(k) ==> k == list.len()
        }),
{
    index_laws::lemma_held(w);
    lemma_node(w, i as int);
    let q = w.index.params;
    let (id, slot) = index_laws::place_of(w, i as int);
    let p = w.disk.pages[id.0 as int];
    layout::lemma_entry_reads(p, slot, model::geometry(q), l);
    let list = index_laws::graph_of(w)[i as int].lists[l as int];
    lemma_edge_fault(ts, i, l, list, list.len());
    assert(i as int as u32 == i);
    if audit::level_edges(p, slot, audit::geometry(q), ts, i, l) is Ok {
        assert forall|x: u32| #[trigger] list.contains(x) implies x != i && x < ts.len() && l
            <= ts[x as int] by {
            let j = choose|j: int| 0 <= j < list.len() && list[j] == x;
            assert(list[j] != i);
        }
    }
    if level_ok(q, ts, i as int, l as int, list) {
        assert forall|j: int| 0 <= j < list.len() implies (#[trigger] list[j]) != i && list[j]
            < ts.len() && l <= ts[list[j] as int] by {
            assert(list.contains(list[j]));
        }
    }
}

/// The check of the first lists of a node.
proof fn lemma_levels_edges(w: World, ts: Seq<u8>, i: u64, n: nat)
    requires
        index_laws::held(w),
        i < w.index.hwm,
        n <= index_laws::graph_of(w)[i as int].lists.len(),
    ensures
        ({
            let q = w.index.params;
            let (id, slot) = index_laws::place_of(w, i as int);
            let p = w.disk.pages[id.0 as int];
            let lists = index_laws::graph_of(w)[i as int].lists;
            let r = audit::levels_edges(p, slot, audit::geometry(q), ts, i, n);
            &&& r is Ok <==> forall|l: int|
                0 <= l < n ==> level_ok(q, ts, i as int, l, #[trigger] lists[l])
            &&& r matches Ok(k) ==> k == list_total(lists, n)
        }),
    decreases n,
{
    if n > 0 {
        lemma_node(w, i as int);
        lemma_levels_edges(w, ts, i, (n - 1) as nat);
        lemma_level_edges(w, ts, i, (n - 1) as u8);
        let q = w.index.params;
        let (id, slot) = index_laws::place_of(w, i as int);
        let p = w.disk.pages[id.0 as int];
        let lists = index_laws::graph_of(w)[i as int].lists;
        let before = audit::levels_edges(p, slot, audit::geometry(q), ts, i, (n - 1) as nat);
        if before is Ok {
            if level_ok(q, ts, i as int, n - 1, lists[n - 1]) {
                assert forall|l: int| 0 <= l < n implies level_ok(
                    q,
                    ts,
                    i as int,
                    l,
                    #[trigger] lists[l],
                ) by {}
            }
        } else {
            let l = choose|l: int|
                0 <= l < n - 1 && !level_ok(q, ts, i as int, l, #[trigger] lists[l]);
            assert(!level_ok(q, ts, i as int, l, lists[l]));
        }
    }
}

/// Every list of node `i` is one that it may have, with edges that lead where
/// edges may lead.
pub open spec fn node_lists_ok(q: MetaParams, ts: Seq<u8>, g: Seq<NodeView>, i: int) -> bool {
    forall|l: int| 0 <= l < g[i].lists.len() ==> level_ok(q, ts, i, l, #[trigger] g[i].lists[l])
}

/// The check of the lists of the first nodes.
proof fn lemma_edges(w: World, n: nat)
    requires
        index_laws::held(w),
        n <= w.index.hwm,
    ensures
        ({
            let q = w.index.params;
            let g = index_laws::graph_of(w);
            let ts = graph_laws::tops(g);
            let r = audit::edges(w.disk.pages, w.index.dir_pages, audit::geometry(q), ts, n);
            &&& r is Ok <==> forall|i: int| 0 <= i < n ==> #[trigger] node_lists_ok(q, ts, g, i)
            &&& r matches Ok(k) ==> k == edge_total(g, n)
        }),
    decreases n,
{
    if n > 0 {
        let q = w.index.params;
        let g = index_laws::graph_of(w);
        let ts = graph_laws::tops(g);
        index_laws::lemma_held(w);
        lemma_node(w, n - 1);
        lemma_edges(w, (n - 1) as nat);
        lemma_levels_edges(w, ts, (n - 1) as u64, g[n - 1].lists.len());
        let before = audit::edges(
            w.disk.pages,
            w.index.dir_pages,
            audit::geometry(q),
            ts,
            (n - 1) as nat,
        );
        if before is Ok {
            if node_lists_ok(q, ts, g, n - 1) {
                assert forall|i: int| 0 <= i < n implies #[trigger] node_lists_ok(q, ts, g, i) by {}
            }
        } else {
            let i = choose|i: int| 0 <= i < n - 1 && !#[trigger] node_lists_ok(q, ts, g, i);
            assert(!node_lists_ok(q, ts, g, i));
        }
    }
}

/// The counts of the audit are those of the graph.
proof fn lemma_counts(w: World, n: nat)
    requires
        n <= index_laws::graph_of(w).len(),
    ensures
        audit::live(entries_of(w, n)) == live_nodes(index_laws::graph_of(w).take(n as int)),
        audit::tombstoned(entries_of(w, n)) == tombstoned_nodes(
            index_laws::graph_of(w).take(n as int),
        ),
        live_nodes(index_laws::graph_of(w).take(n as int)) <= n,
        tombstoned_nodes(index_laws::graph_of(w).take(n as int)) <= n,
    decreases n,
{
    if n > 0 {
        lemma_counts(w, (n - 1) as nat);
        let g = index_laws::graph_of(w);
        assert(g.take(n as int).drop_last() =~= g.take(n - 1));
        assert(entries_of(w, n).drop_last() =~= entries_of(w, (n - 1) as nat));
    }
}

/// The audit accepts an index exactly if its graph is in order. Its report
/// then names the entry point, and counts the nodes, those that are live and
/// those that are marked deleted, and the edges.
pub proof fn lemma_audit_accepts_order(w: World)
    requires
        index_laws::held(w),
    ensures
        ({
            let q = w.index.params;
            let g = index_laws::graph_of(w);
            let r = audit::audited(w.disk.pages, w.index.meta_page_id);
            &&& r is Ok <==> graph_laws::in_order(g, q)
            &&& r matches Ok(report) ==> {
                &&& report.node_count == g.len()
                &&& report.entry_point == q.entry_point
                &&& report.max_level == q.max_level
                &&& report.live_count == live_nodes(g)
                &&& report.initializing_count == g.len() - live_nodes(g)
                &&& report.tombstoned_count == tombstoned_nodes(g)
                &&& report.edge_count == edge_total(g, g.len()) as u64
            }
        }),
{
    let q = w.index.params;
    let g = index_laws::graph_of(w);
    let hwm = w.index.hwm;
    let pages = w.disk.pages;
    let dirs = w.index.dir_pages;
    let ts = graph_laws::tops(g);
    index_laws::lemma_held(w);
    lemma_entries(w, hwm as nat);
    lemma_edges(w, hwm as nat);
    lemma_counts(w, hwm as nat);
    assert(g.take(hwm as int) =~= g);
    let r = audit::audited(pages, w.index.meta_page_id);
    assert(r == audit::graph_audited(pages, dirs, q, hwm)) by {
        reveal(index_laws::held);
        dir::lemma_chain_is_the_legal_chain(
            pages,
            "audit: pin directory page",
            w.index.dir_head,
            dirs,
        );
    }
    assert(audit::tops(entries_of(w, hwm as nat)) =~= ts);
    assert((forall|i: int| 0 <= i < hwm ==> #[trigger] node_lists_ok(q, ts, g, i)) <==> (
    index_laws::lists_ok(g, q) && graph_laws::edges_ok(g, ts))) by {
        if forall|i: int| 0 <= i < hwm ==> #[trigger] node_lists_ok(q, ts, g, i) {
            assert forall|i: int, l: int|
                0 <= i < g.len() && 0 <= l < g[i].lists.len() implies level_ok(
                q,
                ts,
                i,
                l,
                #[trigger] g[i].lists[l],
            ) by {
                assert(node_lists_ok(q, ts, g, i));
            }
        }
    }
}

/// After an insertion that succeeds the audit still accepts the index, as
/// long as a list that is over its capacity is cut down to a part of itself.
pub proof fn lemma_insertion_passes_the_audit(w: World, vector: Seq<u32>, cs: Seq<LevelChoice>)
    requires
        index_laws::held(w),
        audit::audited(w.disk.pages, w.index.meta_page_id) is Ok,
        model::decided(w, vector, cs),
        graph_laws::cuts_down(w, vector, cs),
    ensures
        model::inserted(w, vector, cs) matches (w1, Ok(_)) ==> audit::audited(
            w1.disk.pages,
            w1.index.meta_page_id,
        ) is Ok,
{
    lemma_audit_accepts_order(w);
    graph_laws::lemma_insertion_keeps_order(w, vector, cs);
    if let (w1, Ok(_)) = model::inserted(w, vector, cs) {
        index_laws::lemma_insertion_adds_the_node(w, vector, cs);
        lemma_audit_accepts_order(w1);
    }
}

} // verus!
