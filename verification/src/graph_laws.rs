//! What insertions keep of a graph.
//!
//! A graph is in order if every node has a level that a draw can give, a
//! vector that its metric allows and lists that it may have, every edge leads
//! to a node that has its level, and the entry point is a highest node that
//! was ever made one.

use vstd::prelude::*;

use crate::graph;
use crate::index_laws;
use crate::layout::NodeView;
use crate::meta::MetaParams;
use crate::model;
use crate::model::LevelChoice;
use crate::model::World;
use crate::params;
use crate::rng;

verus! {

/// The top levels of the nodes.
pub open spec fn tops(g: Seq<NodeView>) -> Seq<u8> {
    Seq::new(g.len(), |i: int| g[i].top)
}

/// Every member of a list on a level is a node that has the level.
pub open spec fn targets_ok(list: Seq<u32>, level: int, ts: Seq<u8>) -> bool {
    forall|x: u32| #[trigger] list.contains(x) ==> x < ts.len() && level <= ts[x as int]
}

/// Every edge leads to a node that has its level.
pub open spec fn edges_ok(g: Seq<NodeView>, ts: Seq<u8>) -> bool {
    forall|i: int, l: int|
        0 <= i < g.len() && 0 <= l < g[i].lists.len() ==> targets_ok(
            #[trigger] g[i].lists[l],
            l,
            ts,
        )
}

/// A node that an index may hold.
pub open spec fn node_ok(q: MetaParams, n: NodeView) -> bool {
    &&& n.lists.len() == n.top + 1
    &&& n.top <= rng::top_level(q.m as nat)
    &&& n.vector.len() == q.dim
    &&& graph::vector_check(q.metric, n.vector) is Ok
    &&& n.tombstoned ==> n.live
}

/// The entry point is a node whose top level is the graph's; an empty graph
/// has none.
pub open spec fn entry_point_ok(g: Seq<NodeView>, q: MetaParams) -> bool {
    if g.len() == 0 {
        q.entry_point == params::INVALID_NODE && q.max_level == 0
    } else {
        q.entry_point < g.len() && g[q.entry_point as int].top == q.max_level
    }
}

/// The nodes and the edges are in order.
pub open spec fn sound(g: Seq<NodeView>, q: MetaParams) -> bool {
    &&& forall|i: int| 0 <= i < g.len() ==> node_ok(q, #[trigger] g[i])
    &&& index_laws::lists_ok(g, q)
    &&& edges_ok(g, tops(g))
}

/// The graph is in order.
pub open spec fn in_order(g: Seq<NodeView>, q: MetaParams) -> bool {
    &&& sound(g, q)
    &&& entry_point_ok(g, q)
}

/// Every member of `a` is one of `b`.
pub open spec fn part_of(a: Seq<u32>, b: Seq<u32>) -> bool {
    forall|x: u32| #[trigger] a.contains(x) ==> b.contains(x)
}

/// Where connecting a level comes to the neighbor `j` and its list is over its
/// capacity, the list is cut down to a part of itself.
pub open spec fn cut_down(w: World, node_id: u32, level: u8, c: LevelChoice, j: nat) -> bool {
    let (w1, r) = model::level_connected(w, node_id, level, c, j);
    match model::edge_planned(w1, node_id, c.neighbors[j as int], level) {
        Ok(plan) => r is Ok && plan.over ==> part_of(c.shrunk[j as int], plan.list),
        Err(_) => true,
    }
}

/// As far as connecting comes on the `shared` levels, every list that is over
/// its capacity is cut down to a part of itself.
pub open spec fn all_cut_down(w: World, node_id: u32, shared: nat, cs: Seq<LevelChoice>) -> bool {
    forall|i: nat, j: nat|
        i < cs.len() && j < cs[i as int].neighbors.len() && model::connected(
            w,
            node_id,
            shared,
            cs,
            i,
        ).1 is Ok ==> #[trigger] cut_down(
            model::connected(w, node_id, shared, cs, i).0,
            node_id,
            (shared - 1 - i) as u8,
            cs[i as int],
            j,
        )
}

/// As far as an insertion comes, every list that is over its capacity is cut
/// down to a part of itself.
pub open spec fn cuts_down(w: World, vector: Seq<u32>, cs: Seq<LevelChoice>) -> bool {
    match model::begun(w, vector) {
        (w1, Ok(pending)) => all_cut_down(
            w1,
            pending.node_id.0,
            model::shared_levels(w1.index, pending),
            cs,
        ),
        _ => true,
    }
}

/// In the graph, the list of the neighbor number `j`, where it is over its
/// capacity, becomes a part of itself.
spec fn cut_ok(
    g: Seq<NodeView>,
    cap: u16,
    node_id: u32,
    level: u8,
    c: LevelChoice,
    j: nat,
) -> bool {
    let before = index_laws::level_joined(g, cap, node_id, level, c, j);
    let list = index_laws::with_member(
        before[c.neighbors[j as int] as int].lists[level as int],
        node_id,
    );
    list.len() > cap ==> part_of(c.shrunk[j as int], list)
}

/// In the graph, every list that is over its capacity becomes a part of
/// itself.
spec fn cuts_ok(g: Seq<NodeView>, q: MetaParams, cs: Seq<LevelChoice>) -> bool {
    let id = g.len() as u32;
    forall|i: nat, j: nat|
        i < cs.len() && j < cs[i as int].neighbors.len() ==> #[trigger] cut_ok(
            index_laws::joined(g, q, id, cs.len(), cs, i),
            model::level_cap(q, (cs.len() - 1 - i) as u8),
            id,
            (cs.len() - 1 - i) as u8,
            cs[i as int],
            j,
        )
}

/// A level that can be connected can be connected up to any neighbor, and the
/// edge from that neighbor can be planned.
proof fn lemma_level_prefix(w: World, node_id: u32, level: u8, c: LevelChoice, j: nat, n: nat)
    requires
        j < n,
        model::level_connected(w, node_id, level, c, n).1 is Ok,
    ensures
        model::level_connected(w, node_id, level, c, j).1 is Ok,
        model::edge_planned(
            model::level_connected(w, node_id, level, c, j).0,
            node_id,
            c.neighbors[j as int],
            level,
        ) is Ok,
    decreases n,
{
    reveal(model::level_connected);
    if j + 1 < n {
        lemma_level_prefix(w, node_id, level, c, j, (n - 1) as nat);
    }
}

/// What can be connected can be connected up to any level.
proof fn lemma_connected_up_to(
    w: World,
    node_id: u32,
    shared: nat,
    cs: Seq<LevelChoice>,
    i: nat,
    k: nat,
)
    requires
        i < k,
        model::connected(w, node_id, shared, cs, k).1 is Ok,
    ensures
        model::connected(w, node_id, shared, cs, i).1 is Ok,
        model::level_connected(
            model::connected(w, node_id, shared, cs, i).0,
            node_id,
            (shared - 1 - i) as u8,
            cs[i as int],
            cs[i as int].neighbors.len(),
        ).1 is Ok,
    decreases k,
{
    if i + 1 < k {
        lemma_connected_up_to(w, node_id, shared, cs, i, (k - 1) as nat);
    }
}

/// A list that is cut down on its page is cut down in the graph.
proof fn lemma_cut_in_graph(w: World, node_id: u32, level: u8, c: LevelChoice, j: nat)
    requires
        index_laws::held(w),
        node_id + 1 == w.index.hwm,
        index_laws::unconnected(index_laws::graph_of(w).last()),
        j < c.neighbors.len(),
        model::level_connected(w, node_id, level, c, c.neighbors.len()).1 is Ok,
        cut_down(w, node_id, level, c, j),
    ensures
        cut_ok(
            index_laws::graph_of(w).drop_last(),
            model::level_cap(w.index.params, level),
            node_id,
            level,
            c,
            j,
        ),
{
    let g = index_laws::graph_of(w);
    let old = g.drop_last();
    let cap = model::level_cap(w.index.params, level);
    let nb = c.neighbors[j as int];
    lemma_level_prefix(w, node_id, level, c, j, c.neighbors.len());
    index_laws::lemma_level_connected(w, node_id, level, c, c.neighbors.len());
    index_laws::lemma_level_connected(w, node_id, level, c, j);
    let before = model::level_connected(w, node_id, level, c, j).0;
    let a = index_laws::level_joined(old, cap, node_id, level, c, j);
    index_laws::lemma_held(w);
    index_laws::lemma_level_joined_keeps(old, cap, node_id, level, c, j);
    index_laws::lemma_edge_planned(before, node_id, nb, level);
    assert(nb < old.len());
    assert(index_laws::graph_of(before)[nb as int] == a[nb as int]);
}

/// The lists that an insertion cuts down on their pages are cut down in the
/// graph.
proof fn lemma_cuts_in_graph(w: World, vector: Seq<u32>, cs: Seq<LevelChoice>)
    requires
        index_laws::held(w),
        cs.len() == model::shared_of(w, vector),
        cuts_down(w, vector, cs),
        model::inserted(w, vector, cs).1 is Ok,
    ensures
        cuts_ok(index_laws::graph_of(w), w.index.params, cs),
{
    let g = index_laws::graph_of(w);
    let q = w.index.params;
    let id = g.len() as u32;
    index_laws::lemma_held(w);
    index_laws::lemma_begun_adds_a_fresh_node(w, vector);
    let w1 = model::begun(w, vector).0;
    let pending = model::begun(w, vector).1->Ok_0;
    let shared = cs.len();
    assert(index_laws::graph_of(w1).drop_last() =~= g);
    assert forall|i: nat, j: nat|
        i < cs.len() && j < cs[i as int].neighbors.len() implies #[trigger] cut_ok(
        index_laws::joined(g, q, id, cs.len(), cs, i),
        model::level_cap(q, (cs.len() - 1 - i) as u8),
        id,
        (cs.len() - 1 - i) as u8,
        cs[i as int],
        j,
    ) by {
        lemma_connected_up_to(w1, id, shared, cs, i, cs.len());
        index_laws::lemma_connected(w1, id, shared, cs, i);
        let wi = model::connected(w1, id, shared, cs, i).0;
        assert(cut_down(wi, id, (shared - 1 - i) as u8, cs[i as int], j));
        assert(index_laws::graph_of(wi).drop_last() =~= index_laws::joined(g, q, id, shared, cs, i));
        lemma_cut_in_graph(wi, id, (shared - 1 - i) as u8, cs[i as int], j);
    }
}

/// Where a member belongs is in the list or right behind it.
proof fn lemma_rank(list: Seq<u32>, x: u32)
    ensures
        model::rank(list, x) <= list.len(),
    decreases list.len(),
{
    if list.len() > 0 && list[0] < x {
        lemma_rank(list.skip(1), x);
    }
}

/// A list with a member in its place has that member and those it had.
pub proof fn lemma_with_member(list: Seq<u32>, x: u32, y: u32)
    ensures
        index_laws::with_member(list, x).contains(y) <==> y == x || list.contains(y),
        index_laws::with_member(list, x).len() == list.len() + 1,
{
    lemma_rank(list, x);
    let at = model::rank(list, x) as int;
    let m = list.insert(at, x);
    if m.contains(y) {
        let k = choose|k: int| 0 <= k < m.len() && m[k] == y;
        if k < at {
            assert(list[k] == y);
        } else if k > at {
            assert(list[k - 1] == y);
        }
    }
    if y == x {
        assert(m[at] == y);
    } else if list.contains(y) {
        let k = choose|k: int| 0 <= k < list.len() && list[k] == y;
        if k < at {
            assert(m[k] == y);
        } else {
            assert(m[k + 1] == y);
        }
    }
}

/// Edges from chosen neighbors to a node that has the level lead where edges
/// may lead.
proof fn lemma_level_joined_edges(
    g: Seq<NodeView>,
    ts: Seq<u8>,
    cap: u16,
    node_id: u32,
    level: u8,
    c: LevelChoice,
    n: nat,
)
    requires
        edges_ok(g, ts),
        node_id < ts.len(),
        level <= ts[node_id as int],
        index_laws::joinable(g, level, c, n),
        forall|j: nat| j < n ==> #[trigger] cut_ok(g, cap, node_id, level, c, j),
    ensures
        edges_ok(index_laws::level_joined(g, cap, node_id, level, c, n), ts),
    decreases n,
{
    if n > 0 {
        lemma_level_joined_edges(g, ts, cap, node_id, level, c, (n - 1) as nat);
        index_laws::lemma_level_joined_keeps(g, cap, node_id, level, c, (n - 1) as nat);
        let a = index_laws::level_joined(g, cap, node_id, level, c, (n - 1) as nat);
        let b = index_laws::level_joined(g, cap, node_id, level, c, n);
        let nb = c.neighbors[n - 1];
        let old = a[nb as int].lists[level as int];
        let list = index_laws::with_member(old, node_id);
        assert(a[nb as int].lists.len() == g[nb as int].lists.len());
        assert(targets_ok(old, level as int, ts));
        assert(cut_ok(g, cap, node_id, level, c, (n - 1) as nat));
        let new = if list.len() > cap {
            c.shrunk[n - 1]
        } else {
            list
        };
        assert(targets_ok(new, level as int, ts)) by {
            assert forall|x: u32| #[trigger] new.contains(x) implies x < ts.len() && level
                <= ts[x as int] by {
                lemma_with_member(old, node_id, x);
                assert(list.contains(x));
            }
        }
        assert forall|i: int, l: int| 0 <= i < b.len() && 0 <= l < b[i].lists.len() implies targets_ok(
            #[trigger] b[i].lists[l],
            l,
            ts,
        ) by {
            assert(targets_ok(a[i].lists[l], l, ts));
        }
    }
}

/// Edges on every shared level lead where edges may lead.
proof fn lemma_joined_edges(
    g: Seq<NodeView>,
    ts: Seq<u8>,
    q: MetaParams,
    cs: Seq<LevelChoice>,
    k: nat,
)
    requires
        edges_ok(g, ts),
        g.len() < ts.len(),
        g.len() <= u32::MAX,
        cs.len() <= ts[g.len() as int] + 1,
        k <= cs.len(),
        index_laws::all_joinable(g, cs.len(), cs, k),
        cuts_ok(g, q, cs),
    ensures
        edges_ok(index_laws::joined(g, q, g.len() as u32, cs.len(), cs, k), ts),
    decreases k,
{
    if k > 0 {
        let id = g.len() as u32;
        let shared = cs.len();
        let level = (shared - k) as u8;
        let i = (k - 1) as nat;
        assert(index_laws::all_joinable(g, shared, cs, i));
        lemma_joined_edges(g, ts, q, cs, i);
        index_laws::lemma_joined_keeps(g, q, id, shared, cs, i);
        let a = index_laws::joined(g, q, id, shared, cs, i);
        let c = cs[k - 1];
        assert(index_laws::joinable(g, (shared - 1 - i) as u8, c, c.neighbors.len()));
        index_laws::lemma_joinable_kept(g, a, level, c, c.neighbors.len());
        let cap = model::level_cap(q, level);
        assert forall|j: nat| j < c.neighbors.len() implies #[trigger] cut_ok(
            a,
            cap,
            id,
            level,
            c,
            j,
        ) by {
            assert(cut_ok(
                index_laws::joined(g, q, id, cs.len(), cs, i),
                model::level_cap(q, (cs.len() - 1 - i) as u8),
                id,
                (cs.len() - 1 - i) as u8,
                cs[i as int],
                j,
            ));
        }
        lemma_level_joined_edges(a, ts, cap, id, level, c, c.neighbors.len());
    }
}

/// The lists of the new node lead where edges may lead.
proof fn lemma_new_node_edges(
    g: Seq<NodeView>,
    ts: Seq<u8>,
    level: u8,
    vector: Seq<u32>,
    cs: Seq<LevelChoice>,
)
    requires
        g.len() <= ts.len(),
        forall|i: int| 0 <= i < g.len() ==> (#[trigger] g[i]).lists.len() == g[i].top + 1
            && ts[i] == g[i].top,
        cs.len() <= level + 1,
        index_laws::all_joinable(g, cs.len(), cs, cs.len()),
    ensures
        forall|l: int|
            0 <= l <= level ==> targets_ok(
                #[trigger] index_laws::new_node(level, vector, cs).lists[l],
                l,
                ts,
            ),
{
    let n = index_laws::new_node(level, vector, cs);
    assert forall|l: int| 0 <= l <= level implies targets_ok(#[trigger] n.lists[l], l, ts) by {
        if l < cs.len() {
            let i = cs.len() - 1 - l;
            let c = cs[i];
            assert(n.lists[l] == c.neighbors);
            assert(index_laws::joinable(g, (cs.len() - 1 - i) as u8, c, c.neighbors.len()));
            assert forall|x: u32| #[trigger] c.neighbors.contains(x) implies x < ts.len() && l
                <= ts[x as int] by {
                let j = choose|j: int| 0 <= j < c.neighbors.len() && c.neighbors[j] == x;
                assert(c.neighbors[j] < g.len());
                assert(g[x as int].lists.len() == g[x as int].top + 1);
            }
        } else {
            assert(n.lists[l] =~= Seq::<u32>::empty());
        }
    }
}

/// An insertion keeps the graph in order, as long as a list that is over its
/// capacity is cut down to a part of itself.
pub proof fn lemma_insertion_keeps_order(w: World, vector: Seq<u32>, cs: Seq<LevelChoice>)
    requires
        index_laws::held(w),
        in_order(index_laws::graph_of(w), w.index.params),
        model::decided(w, vector, cs),
        cuts_down(w, vector, cs),
    ensures
        model::inserted(w, vector, cs) matches (w1, Ok(_)) ==> in_order(
            index_laws::graph_of(w1),
            w1.index.params,
        ),
{
    if let (w1, Ok(id)) = model::inserted(w, vector, cs) {
        index_laws::lemma_held(w);
        index_laws::lemma_insertion_adds_the_node(w, vector, cs);
        lemma_insertion_checks(w, vector, cs);
        lemma_cuts_in_graph(w, vector, cs);
        let q = w.index.params;
        let q1 = w1.index.params;
        let g = index_laws::graph_of(w);
        let h = index_laws::graph_of(w1);
        let level = rng::level_draw(w.index.rng, q.m).0 as u8;
        let ts = tops(h);
        index_laws::lemma_joined_keeps(g, q, g.len() as u32, cs.len(), cs, cs.len());
        let a = index_laws::joined(g, q, g.len() as u32, cs.len(), cs, cs.len());
        let n = index_laws::new_node(level, vector, cs);
        assert(h == a.push(n));
        assert forall|i: int| 0 <= i < g.len() implies ts[i] == tops(g)[i] && (
        #[trigger] g[i]).lists.len() == g[i].top + 1 && ts[i] == g[i].top by {
            assert(a[i] == NodeView { lists: a[i].lists, ..g[i] });
            assert(node_ok(q, g[i]));
        }
        assert forall|i: int| 0 <= i < h.len() implies node_ok(q1, #[trigger] h[i]) by {
            if i < g.len() {
                assert(node_ok(q, g[i]));
                assert(a[i] == NodeView { lists: a[i].lists, ..g[i] });
            }
        }
        assert(edges_ok(g, ts)) by {
            assert forall|i: int, l: int|
                0 <= i < g.len() && 0 <= l < g[i].lists.len() implies targets_ok(
                #[trigger] g[i].lists[l],
                l,
                ts,
            ) by {
                assert(targets_ok(g[i].lists[l], l, tops(g)));
                assert forall|x: u32| #[trigger] g[i].lists[l].contains(x) implies x < ts.len()
                    && l <= ts[x as int] by {
                    assert(ts[x as int] == tops(g)[x as int]);
                }
            }
        }
        lemma_joined_edges(g, ts, q, cs, cs.len());
        lemma_new_node_edges(g, ts, level, vector, cs);
        assert forall|i: int, l: int| 0 <= i < h.len() && 0 <= l < h[i].lists.len() implies targets_ok(
            #[trigger] h[i].lists[l],
            l,
            ts,
        ) by {
            if i < g.len() {
                assert(targets_ok(a[i].lists[l], l, ts));
            } else {
                assert(targets_ok(n.lists[l], l, ts));
            }
        }
        assert(index_laws::lists_ok(h, q1)) by {
            assert forall|i: int, l: int|
                0 <= i < h.len() && 0 <= l < h[i].lists.len() implies index_laws::list_ok(
                q1,
                i,
                l,
                #[trigger] h[i].lists[l],
            ) by {
                assert(index_laws::list_ok(q, i, l, h[i].lists[l]));
            }
        }
        if g.len() > 0 {
            let e = q.entry_point as int;
            assert(a[e] == NodeView { lists: a[e].lists, ..g[e] });
        }
    }
}

/// What an insertion that succeeds has checked: the vector, and that it
/// chooses for the levels that the new node shares with the graph.
proof fn lemma_insertion_checks(w: World, vector: Seq<u32>, cs: Seq<LevelChoice>)
    requires
        index_laws::held(w),
        model::decided(w, vector, cs),
        model::inserted(w, vector, cs).1 is Ok,
    ensures
        vector.len() == w.index.params.dim,
        graph::vector_check(w.index.params.metric, vector) is Ok,
        rng::level_draw(w.index.rng, w.index.params.m).0 <= rng::top_level(
            w.index.params.m as nat,
        ) <= 53,
        cs.len() <= rng::level_draw(w.index.rng, w.index.params.m).0 + 1,
        w.index.hwm < u32::MAX,
{
    index_laws::lemma_held(w);
    index_laws::lemma_begun_adds_a_fresh_node(w, vector);
    rng::lemma_level_draw_bound(w.index.rng, w.index.params.m);
    reveal(model::begun);
}

} // verus!
